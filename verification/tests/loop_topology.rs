use slitherlink_core::{DsuTopology, LoopTopology};

#[test]
fn isolated_vertices_are_disconnected() {
    let t = DsuTopology::new(4);
    assert!(!t.connected(0, 1));
    assert!(t.connected(2, 2));
}

#[test]
fn union_connects_transitively() {
    let mut t = DsuTopology::new(4);
    t.add_loop_edge(0, 1);
    t.add_loop_edge(1, 2);
    assert!(t.connected(0, 2));
    assert!(!t.connected(0, 3));
}

#[test]
fn redundant_edge_is_noop() {
    let mut t = DsuTopology::new(3);
    t.add_loop_edge(0, 1);
    t.add_loop_edge(0, 1);
    assert!(t.connected(0, 1));
    assert!(!t.connected(0, 2));
}

#[test]
fn counts_edges_and_components() {
    let mut t = DsuTopology::new(6);
    assert_eq!(t.loop_edge_count(), 0);
    assert_eq!(t.component_count(), 0);

    // Chain 0-1-2 is one component with two edges.
    t.add_loop_edge(0, 1);
    t.add_loop_edge(1, 2);
    assert_eq!(t.loop_edge_count(), 2);
    assert_eq!(t.component_count(), 1);

    // A separate edge 3-4 is a second component.
    t.add_loop_edge(3, 4);
    assert_eq!(t.loop_edge_count(), 3);
    assert_eq!(t.component_count(), 2);

    // Bridging the two chains merges them back to one component.
    t.add_loop_edge(2, 3);
    assert_eq!(t.loop_edge_count(), 4);
    assert_eq!(t.component_count(), 1);
}

#[test]
fn closing_a_cycle_keeps_one_component() {
    let mut t = DsuTopology::new(4);
    t.add_loop_edge(0, 1);
    t.add_loop_edge(1, 2);
    t.add_loop_edge(2, 3);
    t.add_loop_edge(3, 0); // closes the loop
    assert_eq!(t.loop_edge_count(), 4);
    assert_eq!(t.component_count(), 1);
}

#[test]
fn adding_an_edge_joins_exactly_two_components() {
    let mut t = DsuTopology::new(6);
    t.add_loop_edge(0, 1);
    t.add_loop_edge(2, 3);
    let before: Vec<Vec<bool>> = (0..6).map(|x| (0..6).map(|y| t.connected(x, y)).collect()).collect();
    t.add_loop_edge(1, 2);
    assert_eq!(t.loop_edge_count(), 3);
    for x in 0..6 {
        for y in 0..6 {
            let expected = before[x][y] || (before[x][1] && before[2][y]) || (before[x][2] && before[1][y]);
            assert_eq!(t.connected(x, y), expected);
        }
    }
    assert!(t.connected(0, 3));
    assert!(!t.connected(0, 4));
}
