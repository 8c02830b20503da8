use vstd::prelude::*;
use std::collections::HashMap;
use crate::access::{Access, AccessKind, conflicts};
use crate::codec::{adjacency_list, get_dag_serialized, id_record_bytes};
use crate::dag::Dag;

verus! {

broadcast use vstd::std_specs::hash::group_hash_axioms;

/// Node ids of an ordered batch are pairwise distinct.
pub open spec fn ids_distinct(batch: Seq<(u16, Access)>) -> bool {
    forall|i: int, j: int|
        0 <= i < batch.len() && 0 <= j < batch.len() && i != j ==> batch[i].0 != batch[j].0
}

/// The node ids of a batch, in batch order.
pub open spec fn batch_ids(batch: Seq<(u16, Access)>) -> Seq<u16> {
    batch.map_values(|e: (u16, Access)| e.0)
}

/// The local order has an edge `u -> v`: `u` comes earlier, and their accesses conflict.
pub open spec fn local_edge(batch: Seq<(u16, Access)>, u: u16, v: u16) -> bool {
    exists|i: int, j: int|
        #![trigger batch[i], batch[j]]
        0 <= i < j < batch.len() && batch[i].0 == u && batch[j].0 == v && conflicts(
            batch[i].1,
            batch[j].1,
        )
}

/// Positions `a < b` of the batch hold conflicting transactions.
pub open spec fn conflict_at(batch: Seq<(u16, Access)>, a: int, b: int) -> bool {
    0 <= a < b < batch.len() && conflicts(batch[a].1, batch[b].1)
}

/// `index` maps each object key to the positions, among the first `j` of the
/// batch, of the transactions that touch it.
pub open spec fn index_ok(index: Map<u32, Vec<usize>>, batch: Seq<(u16, Access)>, j: int) -> bool {
    &&& forall|k: u32, p: usize|
        #![trigger index[k]@.contains(p)]
        index.contains_key(k) && index[k]@.contains(p) ==> (p as int) < j && batch[p as int].1.keys@.contains(k)
    &&& forall|k: u32, i: int|
        #![trigger batch[i].1.keys@.contains(k)]
        0 <= i < j && batch[i].1.keys@.contains(k) ==> index.contains_key(k) && index[k]@.contains(i as usize)
}

/// An ordered batch of transactions, each with the accesses the conflict oracle
/// reported for it.
#[derive(Clone, Debug)]
pub struct LocalOrderGraph {
    pub local_order: Vec<(u16, Access)>,
}

impl LocalOrderGraph {
    pub fn new(local_order: Vec<(u16, Access)>) -> (r: LocalOrderGraph)
        ensures
            r.local_order@ == local_order@,
    {
        LocalOrderGraph { local_order }
    }

    /// The dependency DAG of the local order: every node in order, and an edge
    /// from each earlier transaction to each later one that conflicts with it.
    pub fn get_dag(&self) -> (dag: Dag)
        requires
            ids_distinct(self.local_order@),
        ensures
            dag.wf(),
            dag.nodes@ == batch_ids(self.local_order@),
            forall|u: u16, v: u16| dag.has_edge(u, v) <==> local_edge(self.local_order@, u, v),
    {
        let batch = &self.local_order;
        let n = batch.len();
        let mut nodes: Vec<u16> = Vec::new();
        let mut edges: Vec<(u16, u16)> = Vec::new();
        // For each edge, the batch positions of its two ends.
        let ghost mut src: Seq<(int, int)> = Seq::empty();
        // For each object key, the positions of the earlier transactions touching it.
        let mut index: HashMap<u32, Vec<usize>> = HashMap::new();
        // mark[i] == j + 1 once the edge from position i to position j is recorded.
        let mut mark: Vec<usize> = Vec::new();
        let mut z: usize = 0;
        while z < n
            invariant
                z <= n,
                mark@.len() == z,
                forall|i: int| 0 <= i < z ==> mark@[i] == 0,
            decreases n - z,
        {
            mark.push(0);
            z += 1;
        }
        let mut j: usize = 0;
        while j < n
            invariant
                n == batch@.len(),
                0 <= j <= n,
                ids_distinct(batch@),
                nodes@ == batch_ids(batch@.take(j as int)),
                edges@.no_duplicates(),
                src.len() == edges@.len(),
                forall|t: int| #![trigger src[t]]
                    0 <= t < src.len() ==> conflict_at(batch@, src[t].0, src[t].1)
                        && src[t].1 < j && edges@[t] == (batch@[src[t].0].0, batch@[src[t].1].0),
                forall|a: int, b: int|
                    0 <= a < b < j && conflicts(batch@[a].1, batch@[b].1) ==> edges@.contains(
                        (#[trigger] batch@[a].0, #[trigger] batch@[b].0),
                    ),
                mark@.len() == n,
                forall|i: int| 0 <= i < n ==> #[trigger] mark@[i] <= j,
                index_ok(index@, batch@, j as int),
            decreases n - j,
        {
            let cur = batch[j].0;
            let keys = &batch[j].1.keys;
            let cur_reads = batch[j].1.kind == AccessKind::Read;
            let mut t: usize = 0;
            while t < keys.len()
                invariant
                    n == batch@.len(),
                    0 <= j < n,
                    0 <= t <= keys@.len(),
                    ids_distinct(batch@),
                    cur == batch@[j as int].0,
                    keys@ == batch@[j as int].1.keys@,
                    cur_reads == (batch@[j as int].1.kind == AccessKind::Read),
                    edges@.no_duplicates(),
                    src.len() == edges@.len(),
                    forall|s: int| #![trigger src[s]]
                        0 <= s < src.len() ==> conflict_at(batch@, src[s].0, src[s].1)
                            && src[s].1 <= j && (src[s].1 == j ==> mark@[src[s].0] == j + 1) && edges@[s] == (
                            batch@[src[s].0].0,
                            batch@[src[s].1].0,
                        ),
                    forall|a: int, b: int|
                        0 <= a < b < j && conflicts(batch@[a].1, batch@[b].1) ==> edges@.contains(
                            (#[trigger] batch@[a].0, #[trigger] batch@[b].0),
                        ),
                    mark@.len() == n,
                    forall|i: int| 0 <= i < n ==> #[trigger] mark@[i] <= j + 1,
                    forall|i: int| 0 <= i < n && #[trigger] mark@[i] == j + 1 ==> i < j && edges@.contains((batch@[i].0, cur)),
                    forall|t2: int, p: usize|
                        #![trigger index@[keys@[t2]]@.contains(p)]
                        0 <= t2 < t && index@.contains_key(keys@[t2]) && index@[keys@[t2]]@.contains(p)
                            && !(cur_reads && batch@[p as int].1.kind == AccessKind::Read) ==> mark@[p as int] == j + 1,
                    index_ok(index@, batch@, j as int),
                decreases keys@.len() - t,
            {
                let k = keys[t];
                match index.get(&k) {
                    Some(list) => {
                        let mut q: usize = 0;
                        while q < list.len()
                            invariant
                                n == batch@.len(),
                                0 <= j < n,
                                0 <= t < keys@.len(),
                                0 <= q <= list@.len(),
                                k == keys@[t as int],
                                index@.contains_key(k),
                                list@ == index@[k]@,
                                ids_distinct(batch@),
                                cur == batch@[j as int].0,
                                keys@ == batch@[j as int].1.keys@,
                                cur_reads == (batch@[j as int].1.kind == AccessKind::Read),
                                edges@.no_duplicates(),
                                src.len() == edges@.len(),
                                forall|s: int| #![trigger src[s]]
                                    0 <= s < src.len() ==> conflict_at(batch@, src[s].0, src[s].1)
                                        && src[s].1 <= j && (src[s].1 == j ==> mark@[src[s].0] == j + 1) && edges@[s] == (
                                        batch@[src[s].0].0,
                                        batch@[src[s].1].0,
                                    ),
                                forall|a: int, b: int|
                                    0 <= a < b < j && conflicts(batch@[a].1, batch@[b].1) ==> edges@.contains(
                                        (#[trigger] batch@[a].0, #[trigger] batch@[b].0),
                                    ),
                                mark@.len() == n,
                                forall|i: int| 0 <= i < n ==> #[trigger] mark@[i] <= j + 1,
                                forall|i: int| 0 <= i < n && #[trigger] mark@[i] == j + 1 ==> i < j && edges@.contains((batch@[i].0, cur)),
                                forall|t2: int, p: usize|
                                    #![trigger index@[keys@[t2]]@.contains(p)]
                                    0 <= t2 < t && index@.contains_key(keys@[t2]) && index@[keys@[t2]]@.contains(p)
                                        && !(cur_reads && batch@[p as int].1.kind == AccessKind::Read) ==> mark@[p as int] == j + 1,
                                forall|q2: int|
                                    #![trigger list@[q2]]
                                    0 <= q2 < q && !(cur_reads && batch@[list@[q2] as int].1.kind == AccessKind::Read) ==> mark@[list@[q2] as int] == j + 1,
                                index_ok(index@, batch@, j as int),
                            decreases list@.len() - q,
                        {
                            let i = list[q];
                            assert(index@[k]@.contains(i) && index@[k]@[q as int] == i);
                            assert((i as int) < j && batch@[i as int].1.keys@.contains(k));
                            if !(cur_reads && batch[i].1.kind == AccessKind::Read) && mark[i] != j + 1 {
                                let ghost old_edges = edges@;
                                let ghost old_src = src;
                                let ghost old_mark = mark@;
                                let e = (batch[i].0, cur);
                                proof {
                                    assert(crate::access::share_key(batch@[i as int].1, batch@[j as int].1)) by {
                                        assert(keys@[t as int] == k);
                                    }
                                    assert(conflict_at(batch@, i as int, j as int));
                                }
                                assert(!old_edges.contains(e)) by {
                                    if old_edges.contains(e) {
                                        let s = choose|s: int| 0 <= s < old_edges.len() && old_edges[s] == e;
                                        assert(conflict_at(batch@, old_src[s].0, old_src[s].1));
                                        assert(old_src[s].1 == j);
                                        assert(old_src[s].0 == i);
                                    }
                                }
                                mark.set(i, j + 1);
                                edges.push(e);
                                proof {
                                    src = src.push((i as int, j as int));
                                    assert forall|s: int| #![trigger src[s]] 0 <= s < src.len() implies conflict_at(batch@, src[s].0, src[s].1)
                                        && src[s].1 <= j && (src[s].1 == j ==> mark@[src[s].0] == j + 1) && edges@[s] == (
                                        batch@[src[s].0].0,
                                        batch@[src[s].1].0,
                                    ) by {
                                        if s < old_src.len() {
                                            assert(src[s] == old_src[s]);
                                            assert(edges@[s] == old_edges[s]);
                                        }
                                    }
                                    assert forall|a: int, b: int|
                                        0 <= a < b < j && conflicts(batch@[a].1, batch@[b].1) implies edges@.contains(
                                            (#[trigger] batch@[a].0, #[trigger] batch@[b].0),
                                        ) by {
                                        crate::global_dag::lemma_push_contains(old_edges, e, (batch@[a].0, batch@[b].0));
                                    }
                                    assert forall|x: int| 0 <= x < n && #[trigger] mark@[x] == j + 1 implies x < j && edges@.contains((batch@[x].0, cur)) by {
                                        crate::global_dag::lemma_push_contains(old_edges, e, (batch@[x].0, cur));
                                        if x != i {
                                            assert(old_mark[x] == j + 1);
                                        }
                                    }
                                }
                            }
                            assert forall|q2: int|
                                #![trigger list@[q2]]
                                0 <= q2 < q + 1 && !(cur_reads && batch@[list@[q2] as int].1.kind == AccessKind::Read) implies mark@[list@[q2] as int] == j + 1 by {
                                assert(index@[k]@.contains(list@[q2]));
                            }
                            q += 1;
                        }
                        proof {
                            assert forall|t2: int, p: usize|
                                #![trigger index@[keys@[t2]]@.contains(p)]
                                0 <= t2 < t + 1 && index@.contains_key(keys@[t2]) && index@[keys@[t2]]@.contains(p)
                                    && !(cur_reads && batch@[p as int].1.kind == AccessKind::Read) implies mark@[p as int] == j + 1 by {
                                if t2 == t {
                                    let q2 = choose|q2: int| 0 <= q2 < list@.len() && list@[q2] == p;
                                    assert(list@[q2] == p);
                                }
                            }
                        }
                    },
                    None => {
                        proof {
                            assert forall|t2: int, p: usize|
                                #![trigger index@[keys@[t2]]@.contains(p)]
                                0 <= t2 < t + 1 && index@.contains_key(keys@[t2]) && index@[keys@[t2]]@.contains(p)
                                    && !(cur_reads && batch@[p as int].1.kind == AccessKind::Read) implies mark@[p as int] == j + 1 by {
                                if t2 == t {
                                    assert(!index@.contains_key(k));
                                }
                            }
                        }
                    },
                }
                t += 1;
            }
            proof {
                assert forall|a: int|
                    0 <= a < j && conflicts(batch@[a].1, batch@[j as int].1) implies edges@.contains(
                        (#[trigger] batch@[a].0, cur),
                    ) by {
                    let k = choose|k: u32| batch@[a].1.keys@.contains(k) && batch@[j as int].1.keys@.contains(k);
                    let t2 = choose|t2: int| 0 <= t2 < keys@.len() && keys@[t2] == k;
                    assert(batch@[a].1.keys@.contains(k));
                    assert(index@.contains_key(k) && index@[k]@.contains(a as usize));
                    assert(index@[keys@[t2]]@.contains(a as usize));
                    assert(mark@[a] == j + 1);
                }
            }
            let ghost index_before = index@;
            let mut t: usize = 0;
            while t < keys.len()
                invariant
                    n == batch@.len(),
                    0 <= j < n,
                    0 <= t <= keys@.len(),
                    keys@ == batch@[j as int].1.keys@,
                    index_ok(index_before, batch@, j as int),
                    forall|k: u32, p: usize| #![trigger index@[k]@.contains(p)]
                        index@.contains_key(k) && index@[k]@.contains(p) ==> (p as int) <= j && batch@[p as int].1.keys@.contains(k),
                    forall|k: u32, i: int| #![trigger batch@[i].1.keys@.contains(k)]
                        0 <= i < j && batch@[i].1.keys@.contains(k) ==> index@.contains_key(k) && index@[k]@.contains(i as usize),
                    forall|t2: int| 0 <= t2 < t ==> index@.contains_key(#[trigger] keys@[t2]) && index@[keys@[t2]]@.contains(j),
                decreases keys@.len() - t,
            {
                let k = keys[t];
                let ghost before = index@;
                let ghost old_list: Seq<usize> = if before.contains_key(k) { before[k]@ } else { Seq::empty() };
                let list: Vec<usize> = match index.remove(&k) {
                    Some(mut l) => {
                        l.push(j);
                        l
                    },
                    None => {
                        let l = vec![j];
                        assert(l@ =~= old_list.push(j));
                        l
                    },
                };
                assert(list@ == old_list.push(j));
                assert forall|p: usize| list@.contains(p) <==> (old_list.contains(p) || p == j) by {
                    crate::global_dag::lemma_push_contains(old_list, j, p);
                }
                index.insert(k, list);
                assert(batch@[j as int].1.keys@.contains(k)) by {
                    assert(keys@[t as int] == k);
                }
                assert forall|k2: u32, p: usize| #![trigger index@[k2]@.contains(p)]
                    index@.contains_key(k2) && index@[k2]@.contains(p) implies (p as int) <= j && batch@[p as int].1.keys@.contains(k2) by {
                    if k2 == k {
                        if p != j {
                            assert(old_list.contains(p));
                            assert(before.contains_key(k) && before[k]@.contains(p));
                        }
                    } else {
                        assert(before.contains_key(k2) && before[k2]@.contains(p));
                    }
                }
                assert forall|k2: u32, i: int| #![trigger batch@[i].1.keys@.contains(k2)]
                    0 <= i < j && batch@[i].1.keys@.contains(k2) implies index@.contains_key(k2) && index@[k2]@.contains(i as usize) by {
                    assert(before.contains_key(k2) && before[k2]@.contains(i as usize));
                }
                assert forall|t2: int| 0 <= t2 < t + 1 implies index@.contains_key(#[trigger] keys@[t2]) && index@[keys@[t2]]@.contains(j) by {
                    if keys@[t2] != k {
                        assert(before.contains_key(keys@[t2]) && before[keys@[t2]]@.contains(j));
                    } else {
                        assert(list@.contains(j));
                    }
                }
                t += 1;
            }
            proof {
                assert forall|k: u32, i: int| #![trigger batch@[i].1.keys@.contains(k)]
                    0 <= i < j + 1 && batch@[i].1.keys@.contains(k) implies index@.contains_key(k) && index@[k]@.contains(i as usize) by {
                    if i == j {
                        let t2 = choose|t2: int| 0 <= t2 < keys@.len() && keys@[t2] == k;
                        assert(index@.contains_key(keys@[t2]));
                    }
                }
                assert(index_ok(index@, batch@, j as int + 1));
            }
            nodes.push(cur);
            assert(batch_ids(batch@.take(j as int + 1)) =~= batch_ids(batch@.take(j as int)).push(cur));
            j += 1;
        }
        assert(batch@.take(n as int) =~= batch@);
        let dag = Dag { nodes, edges };
        proof {
            assert(dag.nodes@ == batch_ids(batch@));
            assert forall|a: int, b: int| 0 <= a < b < dag.nodes@.len() implies dag.nodes@[a] != dag.nodes@[b] by {
                assert(dag.nodes@[a] == batch@[a].0);
                assert(dag.nodes@[b] == batch@[b].0);
            }
            assert forall|t: int| #![trigger dag.edges@[t]] 0 <= t < dag.edges@.len() implies dag.has_node(dag.edges@[t].0)
                && dag.has_node(dag.edges@[t].1) by {
                assert(conflict_at(batch@, src[t].0, src[t].1));
                assert(dag.nodes@[src[t].0] == batch@[src[t].0].0);
                assert(dag.nodes@[src[t].1] == batch@[src[t].1].0);
            }
            assert forall|u: u16, v: u16| dag.has_edge(u, v) implies local_edge(batch@, u, v) by {
                let t = choose|t: int| 0 <= t < dag.edges@.len() && dag.edges@[t] == (u, v);
                assert(conflict_at(batch@, src[t].0, src[t].1));
                let a = src[t].0;
                let b = src[t].1;
                assert(batch@[a].0 == u && batch@[b].0 == v);
            }
            assert forall|u: u16, v: u16| local_edge(batch@, u, v) implies dag.has_edge(u, v) by {
                let (a, b) = choose|a: int, b: int|
                    0 <= a < b < batch@.len() && batch@[a].0 == u && batch@[b].0 == v
                        && conflicts(batch@[a].1, batch@[b].1);
                assert(edges@.contains((batch@[a].0, batch@[b].0)));
            }
        }
        dag
    }

    /// The local DAG as adjacency records, one per transaction in order: its id,
    /// then the ids it has edges to.
    pub fn get_dag_serialized(&self) -> (r: Vec<Vec<u8>>)
        requires
            ids_distinct(self.local_order@),
        ensures
            r@.len() == self.local_order@.len(),
            exists|dag: Dag|
                #![trigger dag.wf()]
                dag.wf() && dag.nodes@ == batch_ids(self.local_order@) && (forall|u: u16, v: u16|
                    dag.has_edge(u, v) <==> local_edge(self.local_order@, u, v)) && (forall|i: int|
                    0 <= i < r@.len() ==> (#[trigger] r@[i])@ == id_record_bytes(adjacency_list(dag, dag.nodes@[i]))),
    {
        let dag = self.get_dag();
        let r = get_dag_serialized(&dag);
        assert(dag.wf());
        r
    }
}

/// The local DAG has no cycle: the batch order itself is a topological order of
/// the DAG that `get_dag` builds.
pub proof fn local_dag_is_acyclic(g: LocalOrderGraph, dag: Dag)
    requires
        ids_distinct(g.local_order@),
        dag.nodes@ == batch_ids(g.local_order@),
        forall|u: u16, v: u16| dag.has_edge(u, v) <==> local_edge(g.local_order@, u, v),
    ensures
        dag.is_topological_order(batch_ids(g.local_order@)),
        dag.is_acyclic(),
{
    let batch = g.local_order@;
    let order = batch_ids(batch);
    assert forall|a: int, b: int| 0 <= a < b < order.len() implies order[a] != order[b] by {
        assert(order[a] == batch[a].0 && order[b] == batch[b].0);
    }
    assert forall|i: int, j: int|
        0 <= i < order.len() && 0 <= j < order.len() && #[trigger] dag.has_edge(
            order[i],
            order[j],
        ) implies i < j by {
        let (a, b) = choose|a: int, b: int|
            #![trigger batch[a], batch[b]]
            0 <= a < b < batch.len() && batch[a].0 == order[i] && batch[b].0 == order[j]
                && conflicts(batch[a].1, batch[b].1);
        assert(order[i] == batch[i].0 && order[j] == batch[j].0);
        assert(a == i && b == j);
    }
    assert(dag.is_topological_order(order));
}

} // verus!
