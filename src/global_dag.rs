use vstd::prelude::*;
use std::collections::HashMap;
use crate::dag::Dag;

verus! {

broadcast use vstd::std_specs::hash::group_hash_axioms;

/// Number of graphs in `dags` that hold node `n`.
pub open spec fn node_count(dags: Seq<Dag>, n: u16) -> nat
    decreases dags.len(),
{
    if dags.len() == 0 {
        0
    } else {
        node_count(dags.drop_last(), n) + if dags.last().has_node(n) {
            1nat
        } else {
            0nat
        }
    }
}

/// Number of graphs in `dags` that hold the edge `u -> v`.
pub open spec fn edge_count(dags: Seq<Dag>, u: u16, v: u16) -> nat
    decreases dags.len(),
{
    if dags.len() == 0 {
        0
    } else {
        edge_count(dags.drop_last(), u, v) + if dags.last().has_edge(u, v) {
            1nat
        } else {
            0nat
        }
    }
}

/// Every graph in `dags` is well formed.
pub open spec fn all_wf(dags: Seq<Dag>) -> bool {
    forall|i: int| 0 <= i < dags.len() ==> #[trigger] dags[i].wf()
}

/// Node `n` is admitted: it appears in at least `pending` graphs.
pub open spec fn admitted_node(dags: Seq<Dag>, pending: u64, n: u16) -> bool {
    node_count(dags, n) >= pending
}

/// Edge `u -> v` is admitted: seen at least `pending` times, and more often than `v -> u`.
pub open spec fn admitted_edge(dags: Seq<Dag>, pending: u64, u: u16, v: u16) -> bool {
    edge_count(dags, u, v) >= pending && edge_count(dags, u, v) > edge_count(dags, v, u)
}

/// The pair `{u, v}` (written with `u < v`) is missed: seen in both directions,
/// together at least `pending` times, with neither direction admitted.
pub open spec fn missed_pair(dags: Seq<Dag>, pending: u64, u: u16, v: u16) -> bool {
    &&& u < v
    &&& edge_count(dags, u, v) >= 1
    &&& edge_count(dags, v, u) >= 1
    &&& edge_count(dags, u, v) + edge_count(dags, v, u) >= pending
    &&& !admitted_edge(dags, pending, u, v)
    &&& !admitted_edge(dags, pending, v, u)
}

/// The key under which the directed pair `u -> v` is counted.
pub open spec fn pair_key(u: u16, v: u16) -> u32 {
    ((u as int) * 65536 + (v as int)) as u32
}

pub proof fn lemma_pair_key_injective(u: u16, v: u16, a: u16, b: u16)
    ensures
        pair_key(u, v) == pair_key(a, b) ==> u == a && v == b,
{
    let x = u as int;
    let y = v as int;
    let p = a as int;
    let q = b as int;
    assert(x * 65536 + y == p * 65536 + q && 0 <= y < 65536 && 0 <= q < 65536 ==> x == p && y == q)
        by (nonlinear_arith);
}

proof fn lemma_node_count_le(dags: Seq<Dag>, n: u16)
    ensures
        node_count(dags, n) <= dags.len(),
    decreases dags.len(),
{
    if dags.len() > 0 {
        lemma_node_count_le(dags.drop_last(), n);
    }
}

proof fn lemma_edge_count_le(dags: Seq<Dag>, u: u16, v: u16)
    ensures
        edge_count(dags, u, v) <= dags.len(),
    decreases dags.len(),
{
    if dags.len() > 0 {
        lemma_edge_count_le(dags.drop_last(), u, v);
    }
}

proof fn lemma_edge_count_le_node_count(dags: Seq<Dag>, u: u16, v: u16)
    requires
        all_wf(dags),
    ensures
        edge_count(dags, u, v) <= node_count(dags, u),
        edge_count(dags, u, v) <= node_count(dags, v),
    decreases dags.len(),
{
    if dags.len() > 0 {
        let init = dags.drop_last();
        assert forall|i: int| 0 <= i < init.len() implies #[trigger] init[i].wf() by {
            assert(init[i] == dags[i]);
        }
        lemma_edge_count_le_node_count(init, u, v);
        let d = dags.last();
        assert(d == dags[dags.len() - 1]);
        assert(dags[dags.len() - 1].wf());
        if d.has_edge(u, v) {
            let t = choose|t: int| 0 <= t < d.edges@.len() && d.edges@[t] == (u, v);
            assert(d.has_node(d.edges@[t].0) && d.has_node(d.edges@[t].1));
        }
    }
}

/// A missed pair together with its two directed counts.
#[derive(Clone, Copy, Debug, PartialEq, Eq, Structural)]
pub struct MissedEdge {
    /// The smaller id of the pair.
    pub u: u16,
    /// The larger id of the pair.
    pub v: u16,
    /// How many graphs had `u -> v`.
    pub forward: u64,
    /// How many graphs had `v -> u`.
    pub backward: u64,
}

/// An element is in `s.push(x)` exactly when it is `x` or already in `s`.
pub proof fn lemma_push_contains<T>(s: Seq<T>, x: T, y: T)
    ensures
        s.push(x).contains(y) <==> (s.contains(y) || y == x),
{
    if s.contains(y) {
        let t = choose|t: int| 0 <= t < s.len() && s[t] == y;
        assert(s.push(x)[t] == y);
    }
    if s.push(x).contains(y) && y != x {
        let t = choose|t: int| 0 <= t < s.push(x).len() && s.push(x)[t] == y;
        assert(s[t] == y);
    }
    assert(s.push(x)[s.len() as int] == x);
}

/// The pairs of a list of missed edges.
pub open spec fn pairs_of(missed: Seq<MissedEdge>) -> Seq<(u16, u16)> {
    missed.map_values(|m: MissedEdge| (m.u, m.v))
}

/// Counts, for every node id, the graphs that hold it; also lists the ids seen.
fn count_nodes(dags: &Vec<Dag>) -> (r: (Vec<u64>, Vec<u16>))
    requires
        all_wf(dags@),
    ensures
        r.0@.len() == 65536,
        forall|n: u16| #[trigger] r.0@[n as int] == node_count(dags@, n),
        r.1@.no_duplicates(),
        forall|n: u16| r.1@.contains(n) <==> node_count(dags@, n) > 0,
{
    let mut counts: Vec<u64> = Vec::new();
    let mut z: usize = 0;
    while z < 65536
        invariant
            z <= 65536,
            counts@.len() == z,
            forall|t: int| 0 <= t < z ==> counts@[t] == 0,
        decreases 65536 - z,
    {
        counts.push(0);
        z += 1;
    }
    let mut seen: Vec<u16> = Vec::new();
    let mut i: usize = 0;
    while i < dags.len()
        invariant
            0 <= i <= dags.len(),
            all_wf(dags@),
            counts@.len() == 65536,
            forall|n: u16| #[trigger] counts@[n as int] == node_count(dags@.take(i as int), n),
            seen@.no_duplicates(),
            forall|n: u16| seen@.contains(n) <==> counts@[n as int] > 0,
        decreases dags.len() - i,
    {
        let d = &dags[i];
        assert(d.wf());
        proof {
            assert(dags@.take(i as int + 1).drop_last() =~= dags@.take(i as int));
            assert(dags@.take(i as int + 1).last() == dags@[i as int]);
        }
        let mut j: usize = 0;
        while j < d.nodes.len()
            invariant
                0 <= i < dags.len(),
                d == dags@[i as int],
                d.wf(),
                0 <= j <= d.nodes@.len(),
                counts@.len() == 65536,
                forall|n: u16|
                    #[trigger] counts@[n as int] == node_count(dags@.take(i as int), n) + if d.nodes@.take(
                        j as int,
                    ).contains(n) {
                        1nat
                    } else {
                        0nat
                    },
                seen@.no_duplicates(),
                forall|n: u16| seen@.contains(n) <==> counts@[n as int] > 0,
            decreases d.nodes@.len() - j,
        {
            let n = d.nodes[j];
            assert(!d.nodes@.take(j as int).contains(n)) by {
                if d.nodes@.take(j as int).contains(n) {
                    let t = choose|t: int| 0 <= t < j && d.nodes@.take(j as int)[t] == n;
                    assert(d.nodes@[t] == d.nodes@[j as int]);
                }
            }
            proof {
                lemma_node_count_le(dags@.take(i as int), n);
            }
            let c = counts[n as usize];
            let ghost old_seen = seen@;
            let ghost old_counts = counts@;
            if c == 0 {
                seen.push(n);
                assert(seen@.no_duplicates()) by {
                    assert(!old_seen.contains(n));
                    assert forall|a: int, b: int| 0 <= a < b < seen@.len() implies seen@[a] != seen@[b] by {
                        if b == old_seen.len() {
                            assert(old_seen.contains(old_seen[a]));
                        }
                    }
                }
            }
            counts.set(n as usize, c + 1);
            assert forall|m: u16| seen@.contains(m) <==> counts@[m as int] > 0 by {
                if m != n {
                    assert(counts@[m as int] == old_counts[m as int]);
                    if c == 0 {
                        assert(seen@.contains(m) ==> old_seen.contains(m)) by {
                            if seen@.contains(m) {
                                let t = choose|t: int| 0 <= t < seen@.len() && seen@[t] == m;
                                assert(t < old_seen.len());
                                assert(old_seen[t] == m);
                            }
                        }
                        assert(old_seen.contains(m) ==> seen@.contains(m)) by {
                            if old_seen.contains(m) {
                                let t = choose|t: int| 0 <= t < old_seen.len() && old_seen[t] == m;
                                assert(seen@[t] == m);
                            }
                        }
                    }
                } else if c == 0 {
                    assert(seen@[old_seen.len() as int] == n);
                }
            }
            assert(d.nodes@.take(j as int + 1) =~= d.nodes@.take(j as int).push(n));
            assert forall|m: u16| #[trigger] counts@[m as int] == node_count(dags@.take(i as int), m) + if d.nodes@.take(
                j as int + 1,
            ).contains(m) {
                1nat
            } else {
                0nat
            } by {
                if m != n {
                    assert(d.nodes@.take(j as int + 1).contains(m) == d.nodes@.take(j as int).contains(m));
                } else {
                    assert(d.nodes@.take(j as int + 1)[j as int] == n);
                }
            }
            j += 1;
        }
        assert(d.nodes@.take(j as int) =~= d.nodes@);
        i += 1;
    }
    assert(dags@.take(i as int) =~= dags@);
    (counts, seen)
}

/// Counts, for every directed pair, the graphs that hold it as an edge; also
/// lists the pairs seen.
fn count_edges(dags: &Vec<Dag>) -> (r: (HashMap<u32, u64>, Vec<(u16, u16)>))
    requires
        all_wf(dags@),
    ensures
        forall|u: u16, v: u16| #[trigger] r.0@.contains_key(pair_key(u, v)) <==> edge_count(dags@, u, v) > 0,
        forall|u: u16, v: u16| r.0@.contains_key(pair_key(u, v)) ==> #[trigger] r.0@[pair_key(u, v)] == edge_count(dags@, u, v),
        r.1@.no_duplicates(),
        forall|u: u16, v: u16| #[trigger] r.1@.contains((u, v)) <==> edge_count(dags@, u, v) > 0,
{
    let mut counts: HashMap<u32, u64> = HashMap::new();
    let mut seen: Vec<(u16, u16)> = Vec::new();
    let mut i: usize = 0;
    while i < dags.len()
        invariant
            0 <= i <= dags.len(),
            all_wf(dags@),
            forall|u: u16, v: u16| #[trigger] counts@.contains_key(pair_key(u, v)) <==> edge_count(dags@.take(i as int), u, v) > 0,
            forall|u: u16, v: u16| counts@.contains_key(pair_key(u, v)) ==> #[trigger] counts@[pair_key(u, v)] == edge_count(dags@.take(i as int), u, v),
            seen@.no_duplicates(),
            forall|u: u16, v: u16| #[trigger] seen@.contains((u, v)) <==> edge_count(dags@.take(i as int), u, v) > 0,
        decreases dags.len() - i,
    {
        let d = &dags[i];
        assert(d.wf());
        proof {
            assert(dags@.take(i as int + 1).drop_last() =~= dags@.take(i as int));
            assert(dags@.take(i as int + 1).last() == dags@[i as int]);
        }
        let mut j: usize = 0;
        while j < d.edges.len()
            invariant
                0 <= i < dags.len(),
                d == dags@[i as int],
                d.wf(),
                0 <= j <= d.edges@.len(),
                forall|u: u16, v: u16| #[trigger] counts@.contains_key(pair_key(u, v)) <==> (edge_count(dags@.take(i as int), u, v) > 0 || d.edges@.take(j as int).contains((u, v))),
                forall|u: u16, v: u16| counts@.contains_key(pair_key(u, v)) ==> #[trigger] counts@[pair_key(u, v)] == edge_count(dags@.take(i as int), u, v) + if d.edges@.take(j as int).contains((u, v)) {
                    1nat
                } else {
                    0nat
                },
                seen@.no_duplicates(),
                forall|u: u16, v: u16| #[trigger] seen@.contains((u, v)) <==> (edge_count(dags@.take(i as int), u, v) > 0 || d.edges@.take(j as int).contains((u, v))),
            decreases d.edges@.len() - j,
        {
            let (u, v) = d.edges[j];
            assert(!d.edges@.take(j as int).contains((u, v))) by {
                if d.edges@.take(j as int).contains((u, v)) {
                    let t = choose|t: int| 0 <= t < j && d.edges@.take(j as int)[t] == (u, v);
                    assert(d.edges@[t] == d.edges@[j as int]);
                }
            }
            let key: u32 = (u as u32) * 65536 + (v as u32);
            assert(key == pair_key(u, v));
            let ghost old_counts = counts@;
            let c: u64 = match counts.get(&key) {
                Some(c) => *c,
                None => 0,
            };
            proof {
                lemma_edge_count_le(dags@.take(i as int), u, v);
                assert(c == edge_count(dags@.take(i as int), u, v));
            }
            let ghost old_seen = seen@;
            if c == 0 {
                seen.push((u, v));
                assert(seen@.no_duplicates()) by {
                    assert(!old_seen.contains((u, v)));
                    assert forall|a: int, b: int| 0 <= a < b < seen@.len() implies seen@[a] != seen@[b] by {
                        if b == old_seen.len() {
                            assert(old_seen.contains(old_seen[a]));
                        }
                    }
                }
            }
            counts.insert(key, c + 1);
            assert(d.edges@.take(j as int + 1) =~= d.edges@.take(j as int).push((u, v)));
            assert forall|a: u16, b: u16| #[trigger] counts@.contains_key(pair_key(a, b)) <==> (edge_count(dags@.take(i as int), a, b) > 0 || d.edges@.take(j as int + 1).contains((a, b))) by {
                lemma_pair_key_injective(a, b, u, v);
                if (a, b) != (u, v) {
                    assert(d.edges@.take(j as int + 1).contains((a, b)) == d.edges@.take(j as int).contains((a, b)));
                } else {
                    assert(d.edges@.take(j as int + 1)[j as int] == (u, v));
                }
            }
            assert forall|a: u16, b: u16| counts@.contains_key(pair_key(a, b)) implies #[trigger] counts@[pair_key(a, b)] == edge_count(dags@.take(i as int), a, b) + if d.edges@.take(j as int + 1).contains((a, b)) {
                1nat
            } else {
                0nat
            } by {
                lemma_pair_key_injective(a, b, u, v);
                if (a, b) != (u, v) {
                    assert(d.edges@.take(j as int + 1).contains((a, b)) == d.edges@.take(j as int).contains((a, b)));
                } else {
                    assert(d.edges@.take(j as int + 1)[j as int] == (u, v));
                }
            }
            assert forall|a: u16, b: u16| #[trigger] seen@.contains((a, b)) <==> (edge_count(dags@.take(i as int), a, b) > 0 || d.edges@.take(j as int + 1).contains((a, b))) by {
                if c == 0 && (a, b) != (u, v) {
                    assert(seen@.contains((a, b)) ==> old_seen.contains((a, b))) by {
                        if seen@.contains((a, b)) {
                            let t = choose|t: int| 0 <= t < seen@.len() && seen@[t] == (a, b);
                            assert(t < old_seen.len());
                            assert(old_seen[t] == (a, b));
                        }
                    }
                    assert(old_seen.contains((a, b)) ==> seen@.contains((a, b))) by {
                        if old_seen.contains((a, b)) {
                            let t = choose|t: int| 0 <= t < old_seen.len() && old_seen[t] == (a, b);
                            assert(seen@[t] == (a, b));
                        }
                    }
                }
                if c == 0 && (a, b) == (u, v) {
                    assert(seen@[old_seen.len() as int] == (u, v));
                }
                if (a, b) != (u, v) {
                    assert(d.edges@.take(j as int + 1).contains((a, b)) == d.edges@.take(j as int).contains((a, b)));
                } else {
                    assert(d.edges@.take(j as int + 1)[j as int] == (u, v));
                }
            }
            j += 1;
        }
        assert(d.edges@.take(j as int) =~= d.edges@);
        i += 1;
    }
    assert(dags@.take(i as int) =~= dags@);
    (counts, seen)
}

/// The ids of `ids` whose count reaches `threshold`, in the order of `ids`.
fn select_at_least(ids: &Vec<u16>, counts: &Vec<u64>, threshold: u64) -> (r: Vec<u16>)
    requires
        ids@.no_duplicates(),
        counts@.len() == 65536,
    ensures
        r@.no_duplicates(),
        forall|n: u16| r@.contains(n) <==> ids@.contains(n) && counts@[n as int] >= threshold,
{
    let mut r: Vec<u16> = Vec::new();
    let mut k: usize = 0;
    while k < ids.len()
        invariant
            0 <= k <= ids@.len(),
            ids@.no_duplicates(),
            counts@.len() == 65536,
            r@.no_duplicates(),
            forall|n: u16| r@.contains(n) <==> ids@.take(k as int).contains(n) && counts@[n as int] >= threshold,
        decreases ids@.len() - k,
    {
        let n = ids[k];
        assert(ids@.take(k as int + 1) =~= ids@.take(k as int).push(n));
        assert(!ids@.take(k as int).contains(n)) by {
            if ids@.take(k as int).contains(n) {
                let t = choose|t: int| 0 <= t < k && ids@.take(k as int)[t] == n;
                assert(ids@[t] == ids@[k as int]);
            }
        }
        let ghost old_r = r@;
        if counts[n as usize] >= threshold {
            r.push(n);
            assert forall|a: int, b: int| 0 <= a < b < r@.len() implies r@[a] != r@[b] by {
                if b == old_r.len() {
                    assert(old_r.contains(old_r[a]));
                }
            }
        }
        assert forall|m: u16| r@.contains(m) <==> ids@.take(k as int + 1).contains(m) && counts@[m as int] >= threshold by {
            lemma_push_contains(ids@.take(k as int), n, m);
            lemma_push_contains(old_r, n, m);
        }
        k += 1;
    }
    assert(ids@.take(k as int) =~= ids@);
    r
}

/// The global DAG of one round, voted from the peers' local DAGs.
#[derive(Clone, Debug)]
pub struct GlobalDependencyGraph {
    pub dag: Dag,
    pub fixed_transactions: Vec<u16>,
    pub missed_edges: Vec<MissedEdge>,
}

impl GlobalDependencyGraph {
    /// The missed pairs, smaller id first.
    pub open spec fn missed_pairs(&self) -> Seq<(u16, u16)> {
        pairs_of(self.missed_edges@)
    }

    /// What `new` guarantees of the graph it builds from `dags`.
    pub open spec fn voted_from(&self, dags: Seq<Dag>, fixed_tx_threshold: u64, pending_tx_threshold: u64) -> bool {
        &&& self.dag.wf()
        &&& forall|n: u16| #[trigger] self.dag.has_node(n) <==> admitted_node(dags, pending_tx_threshold, n)
        &&& self.fixed_transactions@.no_duplicates()
        &&& forall|n: u16| #[trigger] self.fixed_transactions@.contains(n) <==> node_count(dags, n) >= fixed_tx_threshold
        &&& forall|u: u16, v: u16| #[trigger] self.dag.has_edge(u, v) <==> admitted_edge(dags, pending_tx_threshold, u, v)
        &&& self.missed_pairs().no_duplicates()
        &&& forall|u: u16, v: u16| #[trigger] self.missed_pairs().contains((u, v)) <==> missed_pair(dags, pending_tx_threshold, u, v)
        &&& forall|i: int| #![trigger self.missed_edges@[i]] 0 <= i < self.missed_edges@.len() ==> {
            let m = self.missed_edges@[i];
            m.forward == edge_count(dags, m.u, m.v) && m.backward == edge_count(dags, m.v, m.u)
        }
    }

    /// Votes the global DAG from the local DAGs of one round: a node is admitted
    /// when at least `pending_tx_threshold` graphs hold it and fixed when at least
    /// `fixed_tx_threshold` do; an edge is admitted when it is seen at least
    /// `pending_tx_threshold` times and more often than its reverse; a pair seen
    /// both ways, often enough together, with neither way admitted, is missed.
    pub fn new(local_order_graphs: &Vec<Dag>, fixed_tx_threshold: u64, pending_tx_threshold: u64) -> (r: Self)
        requires
            all_wf(local_order_graphs@),
            1 <= pending_tx_threshold <= fixed_tx_threshold,
        ensures
            r.voted_from(local_order_graphs@, fixed_tx_threshold, pending_tx_threshold),
    {
        let dags = local_order_graphs;
        let pending = pending_tx_threshold;
        let (ncounts, seen_nodes) = count_nodes(dags);
        let (ecounts, seen_edges) = count_edges(dags);
        let nodes = select_at_least(&seen_nodes, &ncounts, pending);
        let fixed = select_at_least(&seen_nodes, &ncounts, fixed_tx_threshold);

        let mut edges: Vec<(u16, u16)> = Vec::new();
        let mut missed: Vec<MissedEdge> = Vec::new();
        let mut k: usize = 0;
        while k < seen_edges.len()
            invariant
                0 <= k <= seen_edges@.len(),
                1 <= pending,
                seen_edges@.no_duplicates(),
                forall|u: u16, v: u16| #[trigger] ecounts@.contains_key(pair_key(u, v)) <==> edge_count(dags@, u, v) > 0,
                forall|u: u16, v: u16| ecounts@.contains_key(pair_key(u, v)) ==> #[trigger] ecounts@[pair_key(u, v)] == edge_count(dags@, u, v),
                forall|u: u16, v: u16| #[trigger] seen_edges@.contains((u, v)) <==> edge_count(dags@, u, v) > 0,
                edges@.no_duplicates(),
                forall|u: u16, v: u16| #[trigger] edges@.contains((u, v)) <==> seen_edges@.take(k as int).contains((u, v)) && admitted_edge(dags@, pending, u, v),
                pairs_of(missed@).no_duplicates(),
                forall|u: u16, v: u16| #[trigger] pairs_of(missed@).contains((u, v)) <==> seen_edges@.take(k as int).contains((u, v)) && missed_pair(dags@, pending, u, v),
                forall|i: int| #![trigger missed@[i]] 0 <= i < missed@.len() ==> {
                    let m = missed@[i];
                    m.forward == edge_count(dags@, m.u, m.v) && m.backward == edge_count(dags@, m.v, m.u)
                },
            decreases seen_edges@.len() - k,
        {
            let (u, v) = seen_edges[k];
            assert(seen_edges@.take(k as int + 1) =~= seen_edges@.take(k as int).push((u, v)));
            assert(!seen_edges@.take(k as int).contains((u, v))) by {
                if seen_edges@.take(k as int).contains((u, v)) {
                    let t = choose|t: int| 0 <= t < k && seen_edges@.take(k as int)[t] == (u, v);
                    assert(seen_edges@[t] == seen_edges@[k as int]);
                }
            }
            assert(seen_edges@.contains((u, v)));
            let key: u32 = (u as u32) * 65536 + (v as u32);
            let back_key: u32 = (v as u32) * 65536 + (u as u32);
            assert(key == pair_key(u, v) && back_key == pair_key(v, u));
            let c: u64 = match ecounts.get(&key) {
                Some(c) => *c,
                None => 0,
            };
            let back: u64 = match ecounts.get(&back_key) {
                Some(c) => *c,
                None => 0,
            };
            assert(c == edge_count(dags@, u, v));
            assert(back == edge_count(dags@, v, u));
            let forward_admitted = c >= pending && c > back;
            let backward_admitted = back >= pending && back > c;
            let ghost old_edges = edges@;
            let ghost old_missed = missed@;
            if forward_admitted {
                edges.push((u, v));
                assert forall|a: int, b: int| 0 <= a < b < edges@.len() implies edges@[a] != edges@[b] by {
                    if b == old_edges.len() {
                        assert(old_edges.contains(old_edges[a]));
                    }
                }
            }
            assert forall|a: u16, b: u16| #[trigger] edges@.contains((a, b)) <==> seen_edges@.take(k as int + 1).contains((a, b)) && admitted_edge(dags@, pending, a, b) by {
                lemma_push_contains(seen_edges@.take(k as int), (u, v), (a, b));
                lemma_push_contains(old_edges, (u, v), (a, b));
            }
            if u < v && back >= 1 && !forward_admitted && !backward_admitted && (back >= pending || c >= pending - back) {
                missed.push(MissedEdge { u, v, forward: c, backward: back });
                assert(pairs_of(missed@) =~= pairs_of(old_missed).push((u, v)));
            }
            let ghost mp = pairs_of(missed@);
            let ghost omp = pairs_of(old_missed);
            assert(mp.len() == omp.len() || mp.len() == omp.len() + 1);
            assert forall|t: int| 0 <= t < omp.len() implies mp[t] == omp[t] by {
                assert(missed@[t] == old_missed[t]);
            }
            assert(mp.len() == omp.len() + 1 ==> mp[omp.len() as int] == (u, v));
            assert(mp.len() == omp.len() + 1 <==> missed_pair(dags@, pending, u, v));
            assert(mp.no_duplicates()) by {
                assert forall|a: int, b: int| 0 <= a < b < mp.len() implies mp[a] != mp[b] by {
                    if b == omp.len() {
                        assert(omp.contains(omp[a]));
                    }
                }
            }
            assert forall|a: u16, b: u16| #[trigger] mp.contains((a, b)) <==> seen_edges@.take(k as int + 1).contains((a, b)) && missed_pair(dags@, pending, a, b) by {
                lemma_push_contains(seen_edges@.take(k as int), (u, v), (a, b));
                lemma_push_contains(omp, (u, v), (a, b));
                if mp.len() == omp.len() {
                    assert(mp =~= omp);
                } else {
                    assert(mp =~= omp.push((u, v)));
                }
            }
            assert forall|i: int| #![trigger missed@[i]] 0 <= i < missed@.len() implies {
                let m = missed@[i];
                m.forward == edge_count(dags@, m.u, m.v) && m.backward == edge_count(dags@, m.v, m.u)
            } by {
                if i < old_missed.len() {
                    assert(missed@[i] == old_missed[i]);
                }
            }
            k += 1;
        }
        assert(seen_edges@.take(k as int) =~= seen_edges@);
        let dag = Dag { nodes, edges };
        proof {
            assert forall|n: u16| #[trigger] dag.has_node(n) <==> admitted_node(dags@, pending, n) by {}
            assert forall|t: int| #![trigger dag.edges@[t]] 0 <= t < dag.edges@.len() implies dag.has_node(dag.edges@[t].0)
                && dag.has_node(dag.edges@[t].1) by {
                let (a, b) = dag.edges@[t];
                assert(dag.edges@.contains((a, b)));
                lemma_edge_count_le_node_count(dags@, a, b);
            }
        }
        GlobalDependencyGraph { dag, fixed_transactions: fixed, missed_edges: missed }
    }

    pub fn get_dag(&self) -> (r: &Dag)
        ensures
            r == &self.dag,
    {
        &self.dag
    }

    pub fn get_fixed_transactions(&self) -> (r: &Vec<u16>)
        ensures
            r == &self.fixed_transactions,
    {
        &self.fixed_transactions
    }

    pub fn get_missed_edges(&self) -> (r: &Vec<MissedEdge>)
        ensures
            r == &self.missed_edges,
    {
        &self.missed_edges
    }
}

/// An admitted edge of the global DAG was seen more often than its reverse, and
/// at least `pending_tx_threshold` times.
pub proof fn admitted_edge_won_its_vote(
    g: GlobalDependencyGraph,
    dags: Seq<Dag>,
    fixed_tx_threshold: u64,
    pending_tx_threshold: u64,
    u: u16,
    v: u16,
)
    requires
        g.voted_from(dags, fixed_tx_threshold, pending_tx_threshold),
        g.dag.has_edge(u, v),
    ensures
        edge_count(dags, u, v) > edge_count(dags, v, u),
        edge_count(dags, u, v) >= pending_tx_threshold,
{
}

/// A pair seen often enough in total is listed as missed exactly when it was seen
/// in both directions and neither direction became an edge of the global DAG.
pub proof fn missed_pair_is_undecided_conflict(
    g: GlobalDependencyGraph,
    dags: Seq<Dag>,
    fixed_tx_threshold: u64,
    pending_tx_threshold: u64,
    u: u16,
    v: u16,
)
    requires
        g.voted_from(dags, fixed_tx_threshold, pending_tx_threshold),
        u < v,
        edge_count(dags, u, v) + edge_count(dags, v, u) >= pending_tx_threshold,
    ensures
        g.missed_pairs().contains((u, v)) <==> (edge_count(dags, u, v) >= 1 && edge_count(dags, v, u)
            >= 1 && !g.dag.has_edge(u, v) && !g.dag.has_edge(v, u)),
{
}

} // verus!
