use fair_order::dag::Dag;
use fair_order::execution_queue::{patch_dag, ExecutionQueue};
use fair_order::executor::ParallelExecution;
use fair_order::global_dag::GlobalDependencyGraph;
use fair_order::global_order_maker::GlobalOrderMaker;
use fair_order::missing_edges::MissingEdgeManager;

fn dag(nodes: Vec<u16>, edges: Vec<(u16, u16)>) -> Dag {
    Dag { nodes, edges }
}

fn digest(b: u8) -> Vec<u8> {
    vec![b; 32]
}

#[test]
fn missed_edge_resolution_scenario() {
    let peer = vec![
        dag(vec![0, 1, 2], vec![(0, 1), (0, 2), (1, 2)]),
        dag(vec![0, 1, 2], vec![(0, 1), (0, 2), (1, 2)]),
        dag(vec![0, 1, 2], vec![(0, 1), (0, 2), (2, 1)]),
        dag(vec![0, 1, 2], vec![(2, 1)]),
    ];
    let g = GlobalDependencyGraph::new(&peer, 3, 2);
    let mut manager = MissingEdgeManager::new(3);
    for m in g.get_missed_edges() {
        manager.add_missing_edge(m.u, m.v);
        manager.add_updated_edge(m.u, m.v, m.forward);
        manager.add_updated_edge(m.v, m.u, m.backward);
    }
    assert_eq!(manager.get_count(1, 2), Some(2));
    let mut queue = ExecutionQueue::new();
    queue.add_to_queue(digest(1), vec![(1, 2)]);
    assert!(queue.drain_ready().is_empty());

    // A later round contributes 1 -> 2 twice more.
    assert!(manager.add_updated_edge(1, 2, 2));
    assert_eq!(manager.get_count(1, 2), Some(4));
    assert_eq!(manager.resolved_direction(1, 2), Some((1, 2)));
    assert_eq!(manager.resolved_direction(2, 1), Some((1, 2)));

    queue.on_edge_resolved(1, 2);
    assert!(queue.queue[0].missed_pairs.is_empty());
    assert_eq!(queue.queue[0].updated_edges, vec![(1, 2)]);
    let ready = queue.drain_ready();
    assert_eq!(ready.len(), 1);
    assert!(queue.queue.is_empty());

    let patched = patch_dag(g.get_dag(), &ready[0].updated_edges);
    let mut edges = patched.edges.clone();
    edges.sort();
    assert_eq!(edges, vec![(0, 1), (0, 2), (1, 2)]);
    let mut exec = ParallelExecution::new(patched);
    assert_eq!(exec.execute(), vec![0, 1, 2]);
}

#[test]
fn fifo_execution_scenario() {
    let mut queue = ExecutionQueue::new();
    queue.add_to_queue(digest(1), vec![(1, 2)]);
    queue.add_to_queue(digest(2), vec![(3, 4)]);
    queue.on_edge_resolved(4, 3);
    assert_eq!(queue.queue[1].updated_edges, vec![(4, 3)]);
    assert!(queue.drain_ready().is_empty());
    assert_eq!(queue.queue.len(), 2);
    queue.on_edge_resolved(1, 2);
    let ready = queue.drain_ready();
    assert_eq!(ready.len(), 2);
    assert_eq!(ready[0].global_order_digest, digest(1));
    assert_eq!(ready[1].global_order_digest, digest(2));
}

#[test]
fn head_blocks_ready_successors() {
    let mut queue = ExecutionQueue::new();
    queue.add_to_queue(digest(1), vec![]);
    queue.add_to_queue(digest(2), vec![(5, 6)]);
    queue.add_to_queue(digest(3), vec![]);
    let ready = queue.drain_ready();
    assert_eq!(ready.len(), 1);
    assert_eq!(ready[0].global_order_digest, digest(1));
    assert_eq!(queue.queue.len(), 2);
    assert_eq!(queue.queue[0].global_order_digest, digest(2));
}

#[test]
fn execute_refreshes_from_manager() {
    let mut manager = MissingEdgeManager::new(2);
    manager.add_missing_edge(7, 8);
    let mut queue = ExecutionQueue::new();
    let ready = queue.execute(digest(1), vec![(7, 8)], &manager);
    assert!(ready.is_empty());
    assert!(manager.add_updated_edge(8, 7, 2) == true);
    let ready = queue.execute(digest(2), vec![], &manager);
    assert_eq!(ready.len(), 2);
    assert_eq!(ready[0].updated_edges, vec![(8, 7)]);
    assert!(ready[1].missed_pairs.is_empty());
}

#[test]
fn missing_edge_manager_is_symmetric_and_monotone() {
    let mut m = MissingEdgeManager::new(3);
    assert!(!m.is_missing_edge(1, 2));
    assert!(!m.add_updated_edge(1, 2, 5));
    assert_eq!(m.get_count(1, 2), None);
    m.add_missing_edge(1, 2);
    assert!(m.is_missing_edge(1, 2) && m.is_missing_edge(2, 1));
    assert_eq!((m.get_count(1, 2), m.get_count(2, 1)), (Some(0), Some(0)));
    assert!(!m.add_updated_edge(2, 1, 2));
    assert_eq!(m.get_count(2, 1), Some(2));
    m.add_missing_edge(2, 1);
    assert_eq!(m.get_count(2, 1), Some(2));
    assert!(m.add_updated_edge(2, 1, 1));
    assert_eq!(m.get_count(2, 1), Some(3));
    assert_eq!(m.get_count(1, 2), Some(0));
    assert_eq!(m.resolved_direction(1, 2), Some((2, 1)));
    assert_eq!(m.resolved_direction(3, 4), None);
}

#[test]
fn executor_runs_every_node_once_in_dependency_order() {
    let g = dag(vec![5, 1, 3, 2, 4], vec![(1, 2), (1, 3), (2, 4), (3, 4), (5, 4)]);
    let mut exec = ParallelExecution::new(g.clone());
    let order = exec.execute();
    assert_eq!(order.len(), 5);
    let pos = |n: u16| order.iter().position(|&x| x == n).unwrap();
    for &(u, v) in &g.edges {
        assert!(pos(u) < pos(v));
    }
}

#[test]
fn executor_take_and_complete() {
    let g = dag(vec![1, 2], vec![(1, 2)]);
    let mut exec = ParallelExecution::new(g);
    assert_eq!(exec.take_ready(), Some(1));
    assert_eq!(exec.take_ready(), None);
    exec.complete(1);
    assert_eq!(exec.take_ready(), Some(2));
    exec.complete(2);
    assert_eq!(exec.take_ready(), None);
}

#[test]
fn executor_leaves_cycle_unrun() {
    let g = dag(vec![1, 2, 3], vec![(1, 2), (2, 1)]);
    let mut exec = ParallelExecution::new(g);
    assert_eq!(exec.execute(), vec![3]);
}

#[test]
fn global_order_maker_waits_for_quorum_in_round() {
    let mut maker = GlobalOrderMaker::new(3, 3, 2);
    let mut manager = MissingEdgeManager::new(3);
    let d = || dag(vec![0, 1], vec![(0, 1)]);
    assert!(maker.add_local_dag(d(), 2, 1, &mut manager).is_none());
    assert_eq!(maker.local_order_dags.len(), 0);
    assert!(maker.add_local_dag(d(), 1, 1, &mut manager).is_none());
    assert!(maker.add_local_dag(d(), 1, 2, &mut manager).is_none());
    let g = maker.add_local_dag(d(), 1, 3, &mut manager).expect("quorum reached");
    assert_eq!(g.get_dag().edges, vec![(0, 1)]);
    assert!(maker.add_local_dag(d(), 1, 4, &mut manager).is_none());
    assert_eq!(maker.local_order_dags.len(), 3);
    maker.advance_round(2);
    assert_eq!(maker.local_order_dags.len(), 0);
    assert!(maker.add_local_dag(d(), 2, 1, &mut manager).is_none());
}

#[test]
fn global_order_maker_keeps_first_dag_of_a_sender() {
    let mut maker = GlobalOrderMaker::new(2, 2, 2);
    let mut manager = MissingEdgeManager::new(3);
    assert!(maker.add_local_dag(dag(vec![0, 1], vec![(0, 1)]), 1, 7, &mut manager).is_none());
    assert!(maker.add_local_dag(dag(vec![0, 1], vec![(1, 0)]), 1, 7, &mut manager).is_none());
    assert_eq!(maker.local_order_dags.len(), 1);
    assert_eq!(maker.local_order_dags[0].edges, vec![(0, 1)]);
    let g = maker.add_local_dag(dag(vec![0, 1], vec![(0, 1)]), 1, 8, &mut manager).unwrap();
    assert_eq!(g.get_dag().edges, vec![(0, 1)]);
}

#[test]
fn global_order_maker_records_missed_pairs() {
    let mut maker = GlobalOrderMaker::new(2, 2, 2);
    let mut manager = MissingEdgeManager::new(3);
    assert!(maker.add_local_dag(dag(vec![1, 2], vec![(1, 2)]), 1, 1, &mut manager).is_none());
    let g = maker.add_local_dag(dag(vec![1, 2], vec![(2, 1)]), 1, 2, &mut manager).unwrap();
    assert_eq!(g.get_missed_edges().len(), 1);
    assert!(manager.is_missing_edge(1, 2));
    assert_eq!(manager.get_count(1, 2), Some(1));
    assert_eq!(manager.get_count(2, 1), Some(1));
    maker.advance_round(2);
    assert!(maker.add_local_dag(dag(vec![1, 2], vec![(1, 2)]), 2, 1, &mut manager).is_none());
    assert_eq!(manager.get_count(1, 2), Some(2));
}
