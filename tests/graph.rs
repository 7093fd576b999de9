use codenav_core::graph::DependencyGraph;

#[test]
fn graph_keeps_edge_order_and_drops_invalid() {
    let edges = vec![(0, 2), (0, 1), (3, 0), (1, 2), (2, 2), (0, 9)];
    let g = DependencyGraph::new(3, &edges);
    assert_eq!(g.num_nodes(), 3);
    assert_eq!(g.out_neighbors(0), &vec![2, 1]);
    assert_eq!(g.in_neighbors(2), &vec![0, 1, 2]);
    assert_eq!(g.out_degree(0), 2);
    assert_eq!(g.out_degree(2), 1);
    assert_eq!(g.in_neighbors(0), &Vec::<usize>::new());
}

#[test]
fn dangling_nodes_of_chain() {
    let edges = vec![(0, 1), (1, 2), (2, 3)];
    let g = DependencyGraph::new(4, &edges);
    assert_eq!(g.dangling_nodes(), vec![3]);
}

#[test]
fn isolated_nodes_are_all_dangling() {
    let g = DependencyGraph::new(3, &[]);
    assert_eq!(g.dangling_nodes(), vec![0, 1, 2]);
}

#[test]
fn empty_graph_has_no_nodes() {
    let g = DependencyGraph::new(0, &[(0, 0)]);
    assert_eq!(g.num_nodes(), 0);
    assert_eq!(g.dangling_nodes(), Vec::<usize>::new());
}
