use neo_ucs::Graph;

/// The five-node reference graph: A→B:1, A→C:5, B→D:3, C→D:1, C→E:2, D→E:2.
fn reference_graph() -> Graph {
    let mut g = Graph::new();
    g.add_edge('A', 'B', 1);
    g.add_edge('A', 'C', 5);
    g.add_edge('B', 'D', 3);
    g.add_edge('C', 'D', 1);
    g.add_edge('C', 'E', 2);
    g.add_edge('D', 'E', 2);
    g
}

#[test]
fn cheapest_route_a_to_e() {
    // A→B→D→E = 1+3+2 = 6 beats A→C→E = 7 and A→C→D→E = 8.
    let g = reference_graph();
    assert_eq!(g.uniform_cost_search('A', 'E'), Some(6));
}

#[test]
fn start_equals_goal() {
    let g = reference_graph();
    assert_eq!(g.uniform_cost_search('A', 'A'), Some(0));
}

#[test]
fn no_reverse_path() {
    let g = reference_graph();
    assert_eq!(g.uniform_cost_search('E', 'A'), None);
}

#[test]
fn cheapest_route_a_to_d() {
    // A→B→D = 1+3 = 4 beats A→C→D = 5+1 = 6.
    let g = reference_graph();
    assert_eq!(g.uniform_cost_search('A', 'D'), Some(4));
}

#[test]
fn isolated_goal_unreachable() {
    // Z has no edges in or out.
    let g = reference_graph();
    assert_eq!(g.uniform_cost_search('A', 'Z'), None);
}

#[test]
fn self_loop_does_not_beat_zero() {
    let mut g = reference_graph();
    g.add_edge('A', 'A', 9);
    assert_eq!(g.uniform_cost_search('A', 'A'), Some(0));
}

#[test]
fn insertion_order_is_irrelevant() {
    let forward = reference_graph();
    let mut backward = Graph::new();
    backward.add_edge('D', 'E', 2);
    backward.add_edge('C', 'E', 2);
    backward.add_edge('C', 'D', 1);
    backward.add_edge('B', 'D', 3);
    backward.add_edge('A', 'C', 5);
    backward.add_edge('A', 'B', 1);
    for goal in ['A', 'B', 'C', 'D', 'E', 'Z'] {
        assert_eq!(
            forward.uniform_cost_search('A', goal),
            backward.uniform_cost_search('A', goal)
        );
    }
}

#[test]
fn repeated_queries_agree() {
    let g = reference_graph();
    let first = g.uniform_cost_search('A', 'E');
    let second = g.uniform_cost_search('A', 'E');
    assert_eq!(first, Some(6));
    assert_eq!(first, second);
}

#[test]
fn empty_graph_queries() {
    let g = Graph::new();
    assert_eq!(g.uniform_cost_search('X', 'X'), Some(0));
    assert_eq!(g.uniform_cost_search('X', 'Y'), None);
}

#[test]
fn parallel_edges_take_the_cheapest() {
    let mut g = Graph::new();
    g.add_edge('A', 'B', 7);
    g.add_edge('A', 'B', 3);
    g.add_edge('A', 'B', 5);
    assert_eq!(g.uniform_cost_search('A', 'B'), Some(3));
}

#[test]
fn zero_weight_edges() {
    let mut g = Graph::new();
    g.add_edge('A', 'B', 0);
    g.add_edge('B', 'C', 0);
    g.add_edge('A', 'C', 4);
    assert_eq!(g.uniform_cost_search('A', 'C'), Some(0));
}

#[test]
fn wide_accumulation_of_large_weights() {
    // Two maximal edge weights in a row: the sum exceeds the weight type.
    let mut g = Graph::new();
    g.add_edge('A', 'B', u32::MAX);
    g.add_edge('B', 'C', u32::MAX);
    assert_eq!(
        g.uniform_cost_search('A', 'C'),
        Some(2 * (u32::MAX as u128))
    );
}

#[test]
fn start_without_outgoing_edges() {
    let mut g = Graph::new();
    g.add_edge('B', 'C', 2);
    assert_eq!(g.uniform_cost_search('A', 'C'), None);
    assert_eq!(g.uniform_cost_search('A', 'A'), Some(0));
}

#[test]
fn longer_path_can_be_cheaper() {
    let mut g = Graph::new();
    g.add_edge('A', 'B', 10);
    g.add_edge('A', 'C', 2);
    g.add_edge('C', 'B', 3);
    assert_eq!(g.uniform_cost_search('A', 'B'), Some(5));
}

#[test]
fn cycle_does_not_trap_the_search() {
    let mut g = Graph::new();
    g.add_edge('A', 'B', 1);
    g.add_edge('B', 'A', 1);
    g.add_edge('B', 'C', 4);
    assert_eq!(g.uniform_cost_search('A', 'C'), Some(5));
    assert_eq!(g.uniform_cost_search('A', 'Z'), None);
}

#[test]
fn returned_costs_are_nonnegative() {
    let g = reference_graph();
    for goal in ['A', 'B', 'C', 'D', 'E'] {
        let r = g.uniform_cost_search('A', goal);
        assert!(r.is_some());
        assert!(r.unwrap() <= 7);
    }
}
