use fair_order::access::{Access, AccessKind};
use fair_order::add;
use fair_order::dag::Dag;
use fair_order::local_dag::LocalOrderGraph;

fn write(keys: Vec<u32>) -> Access {
    Access { kind: AccessKind::Write, keys }
}

fn read(keys: Vec<u32>) -> Access {
    Access { kind: AccessKind::Read, keys }
}

fn sorted_edges(dag: &Dag) -> Vec<(u16, u16)> {
    let mut e = dag.edges.clone();
    e.sort();
    e
}

#[test]
fn lib_it_works() {
    let result = add(2, 2);
    assert_eq!(result, 4);
}

#[test]
fn local_dag_writes_conflict() {
    let g = LocalOrderGraph::new(vec![(0, write(vec![5])), (1, write(vec![5])), (2, read(vec![7]))]);
    let dag = g.get_dag();
    assert_eq!(dag.nodes, vec![0, 1, 2]);
    assert_eq!(sorted_edges(&dag), vec![(0, 1)]);
}

#[test]
fn local_dag_read_write_asymmetry() {
    let g = LocalOrderGraph::new(vec![(0, read(vec![1])), (1, write(vec![1])), (2, read(vec![1]))]);
    let dag = g.get_dag();
    assert_eq!(sorted_edges(&dag), vec![(0, 1), (1, 2)]);
}

#[test]
fn local_dag_edges_follow_batch_order() {
    let g = LocalOrderGraph::new(vec![
        (9, write(vec![1, 2])),
        (4, read(vec![2])),
        (7, write(vec![3, 1])),
        (1, read(vec![3, 2])),
    ]);
    let dag = g.get_dag();
    let pos = |n: u16| dag.nodes.iter().position(|&x| x == n).unwrap();
    for &(u, v) in &dag.edges {
        assert!(pos(u) < pos(v));
    }
    assert_eq!(sorted_edges(&dag), vec![(7, 1), (9, 1), (9, 4), (9, 7)]);
}

#[test]
fn local_dag_shared_keys_give_one_edge() {
    let g = LocalOrderGraph::new(vec![(0, write(vec![1, 2, 3])), (1, write(vec![3, 2, 1]))]);
    let dag = g.get_dag();
    assert_eq!(dag.edges, vec![(0, 1)]);
}

#[test]
fn local_dag_empty_batch() {
    let g = LocalOrderGraph::new(vec![]);
    let dag = g.get_dag();
    assert!(dag.nodes.is_empty());
    assert!(dag.edges.is_empty());
}

#[test]
fn local_dag_serialized_records() {
    let g = LocalOrderGraph::new(vec![(0, write(vec![5])), (1, write(vec![5])), (2, read(vec![7]))]);
    let records = g.get_dag_serialized();
    assert_eq!(records.len(), 3);
    assert_eq!(records[0], vec![2, 0, 0, 0, 0, 0, 0, 0, 0, 0, 1, 0]);
    assert_eq!(records[1], vec![1, 0, 0, 0, 0, 0, 0, 0, 1, 0]);
    assert_eq!(records[2], vec![1, 0, 0, 0, 0, 0, 0, 0, 2, 0]);
}
