use fair_order::dag::Dag;
use fair_order::global_dag::GlobalDependencyGraph;
use fair_order::prune::PrunedGraph;

const A: u16 = 0;
const B: u16 = 1;
const C: u16 = 2;

fn dag(nodes: Vec<u16>, edges: Vec<(u16, u16)>) -> Dag {
    Dag { nodes, edges }
}

fn peer_dags() -> Vec<Dag> {
    vec![
        dag(vec![A, B, C], vec![(A, B), (A, C), (B, C)]),
        dag(vec![A, B, C], vec![(A, B), (A, C), (B, C)]),
        dag(vec![A, B, C], vec![(A, B), (A, C), (C, B)]),
        dag(vec![A, B, C], vec![(C, B)]),
    ]
}

fn sorted<T: Ord + Clone>(v: &[T]) -> Vec<T> {
    let mut v = v.to_vec();
    v.sort();
    v
}

#[test]
fn global_aggregation_scenario() {
    let g = GlobalDependencyGraph::new(&peer_dags(), 3, 2);
    assert_eq!(sorted(&g.get_dag().nodes), vec![A, B, C]);
    assert_eq!(sorted(g.get_fixed_transactions()), vec![A, B, C]);
    assert_eq!(sorted(&g.get_dag().edges), vec![(A, B), (A, C)]);
    let missed = g.get_missed_edges();
    assert_eq!(missed.len(), 1);
    assert_eq!((missed[0].u, missed[0].v), (B, C));
    assert_eq!((missed[0].forward, missed[0].backward), (2, 2));
}

#[test]
fn admitted_edges_beat_their_reverse() {
    // 3 -> 4 seen three times, 4 -> 3 twice: admitted one way only.
    let dags = vec![
        dag(vec![3, 4], vec![(3, 4)]),
        dag(vec![3, 4], vec![(3, 4)]),
        dag(vec![3, 4], vec![(3, 4)]),
        dag(vec![3, 4], vec![(4, 3)]),
        dag(vec![3, 4], vec![(4, 3)]),
    ];
    let g = GlobalDependencyGraph::new(&dags, 4, 2);
    assert_eq!(g.get_dag().edges, vec![(3, 4)]);
    assert!(g.get_missed_edges().is_empty());
    assert_eq!(sorted(g.get_fixed_transactions()), vec![3, 4]);
}

#[test]
fn node_below_pending_threshold_is_dropped() {
    let dags = vec![dag(vec![1, 2], vec![(1, 2)]), dag(vec![1], vec![]), dag(vec![1], vec![])];
    let g = GlobalDependencyGraph::new(&dags, 3, 2);
    assert_eq!(g.get_dag().nodes, vec![1]);
    assert!(g.get_dag().edges.is_empty());
    assert_eq!(g.get_fixed_transactions(), &vec![1]);
}

#[test]
fn pending_node_is_not_fixed() {
    let dags = vec![dag(vec![5, 6], vec![]), dag(vec![5, 6], vec![]), dag(vec![5], vec![])];
    let g = GlobalDependencyGraph::new(&dags, 3, 2);
    assert_eq!(sorted(&g.get_dag().nodes), vec![5, 6]);
    assert_eq!(g.get_fixed_transactions(), &vec![5]);
}

#[test]
fn pair_seen_both_ways_below_threshold_is_not_missed() {
    let dags = vec![dag(vec![1, 2], vec![(1, 2)]), dag(vec![1, 2], vec![(2, 1)])];
    let g = GlobalDependencyGraph::new(&dags, 4, 3);
    assert!(g.get_missed_edges().is_empty());
    assert!(g.get_dag().edges.is_empty());
}

#[test]
fn pair_seen_one_way_only_is_not_missed() {
    let dags = vec![dag(vec![1, 2], vec![(1, 2)]), dag(vec![1, 2], vec![])];
    let g = GlobalDependencyGraph::new(&dags, 2, 2);
    assert!(g.get_missed_edges().is_empty());
    assert!(g.get_dag().edges.is_empty());
}

#[test]
fn no_local_dags_give_empty_global_dag() {
    let g = GlobalDependencyGraph::new(&vec![], 3, 2);
    assert!(g.get_dag().nodes.is_empty());
    assert!(g.get_fixed_transactions().is_empty());
}

#[test]
fn pruning_removes_pending_cycle() {
    let g = dag(vec![10, 11], vec![(10, 11), (11, 10)]);
    let pruned = PrunedGraph::new(&g, &vec![]);
    assert!(pruned.pruned_graph.nodes.is_empty());
    assert!(pruned.pruned_graph.edges.is_empty());
}

#[test]
fn pruning_keeps_cycle_with_fixed_node() {
    let g = dag(vec![10, 11], vec![(10, 11), (11, 10)]);
    let pruned = PrunedGraph::new(&g, &vec![10]);
    assert_eq!(sorted(&pruned.pruned_graph.nodes), vec![10, 11]);
    assert_eq!(sorted(&pruned.pruned_graph.edges), vec![(10, 11), (11, 10)]);
}

#[test]
fn pruning_keeps_acyclic_pending_nodes_and_is_idempotent() {
    // 1 -> 2 -> 3 -> 2 is a pending cycle {2, 3}; 1 and 4 are on no cycle.
    let g = dag(vec![1, 2, 3, 4], vec![(1, 2), (2, 3), (3, 2), (1, 4)]);
    let once = PrunedGraph::new(&g, &vec![1]);
    assert_eq!(sorted(&once.pruned_graph.nodes), vec![1, 4]);
    assert_eq!(once.pruned_graph.edges, vec![(1, 4)]);
    let twice = PrunedGraph::new(&once.pruned_graph, &vec![1]);
    assert_eq!(sorted(&twice.pruned_graph.nodes), vec![1, 4]);
    assert_eq!(twice.pruned_graph.edges, vec![(1, 4)]);
}

#[test]
fn pruning_removes_pending_self_loop() {
    let g = dag(vec![1, 2], vec![(1, 1), (1, 2)]);
    let pruned = PrunedGraph::new(&g, &vec![]);
    assert_eq!(pruned.pruned_graph.nodes, vec![2]);
    assert!(pruned.pruned_graph.edges.is_empty());
}
