use neo_ucs::Graph;

#[test]
fn neighbors_in_insertion_order() {
    let mut g = Graph::new();
    g.add_edge('A', 'B', 1);
    g.add_edge('C', 'D', 9);
    g.add_edge('A', 'C', 5);
    assert_eq!(g.neighbors('A'), vec![('B', 1), ('C', 5)]);
    assert_eq!(g.neighbors('C'), vec![('D', 9)]);
}

#[test]
fn neighbors_of_unknown_node_are_empty() {
    let mut g = Graph::new();
    g.add_edge('A', 'B', 1);
    assert_eq!(g.neighbors('B'), vec![]);
    assert_eq!(g.neighbors('Q'), vec![]);
}

#[test]
fn multigraph_keeps_parallel_edges() {
    let mut g = Graph::new();
    g.add_edge('A', 'B', 2);
    g.add_edge('A', 'B', 2);
    g.add_edge('A', 'B', 7);
    assert_eq!(g.neighbors('A'), vec![('B', 2), ('B', 2), ('B', 7)]);
}

#[test]
fn edges_are_recorded_in_order() {
    let mut g = Graph::new();
    assert_eq!(g.edge_count(), 0);
    g.add_edge('X', 'Y', 3);
    g.add_edge('Y', 'Z', 4);
    assert_eq!(g.edge_count(), 2);
    assert_eq!(g.edge_at(0), ('X', 'Y', 3));
    assert_eq!(g.edge_at(1), ('Y', 'Z', 4));
}
