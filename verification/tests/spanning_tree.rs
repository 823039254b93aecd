use graph::adjacency::rows_are_simple;
use graph::cycle::{rows_have_cycle, rows_have_cycle_from};
use graph::event::{Event, PointerButton};
use graph::geometry::Pos2;
use graph::graph::Graph;
use graph::tree::{sort_candidates, EdgeCandidate};

fn graph_at(points: &[(i32, i32)]) -> Graph {
    let mut g = Graph::default();
    for &(x, y) in points {
        g.add_node(Pos2::new(x, y));
    }
    g
}

fn edge_count(g: &Graph) -> usize {
    g.vertices().len()
}

#[test]
fn linear_chain_minimum_tree() {
    let mut g = graph_at(&[(0, 0), (10, 0), (25, 0)]);
    g.add_every_edge();
    let tree = g.covering_tree(false);
    assert_eq!(tree.adjacencies(), &vec![vec![1], vec![0, 2], vec![1]]);
    assert!(!tree.has_cycle());
    assert_eq!(tree.nodes(), g.nodes());
}

#[test]
fn linear_chain_maximum_tree() {
    let mut g = graph_at(&[(0, 0), (10, 0), (25, 0)]);
    g.add_every_edge();
    let tree = g.covering_tree(true);
    assert_eq!(tree.adjacencies(), &vec![vec![2], vec![2], vec![0, 1]]);
    assert!(!tree.has_cycle());
}

#[test]
fn candidates_carry_squared_distances() {
    let mut g = graph_at(&[(0, 0), (3, 4), (-3, -4)]);
    g.add_every_edge();
    assert_eq!(
        g.candidates(),
        vec![
            EdgeCandidate { a: 0, b: 1, weight: 25 },
            EdgeCandidate { a: 0, b: 2, weight: 25 },
            EdgeCandidate { a: 1, b: 2, weight: 100 },
        ]
    );
}

#[test]
fn sort_is_stable_in_both_directions() {
    let list = vec![
        EdgeCandidate { a: 0, b: 1, weight: 5 },
        EdgeCandidate { a: 0, b: 2, weight: 1 },
        EdgeCandidate { a: 1, b: 2, weight: 5 },
        EdgeCandidate { a: 2, b: 3, weight: 1 },
    ];
    assert_eq!(
        sort_candidates(list.clone(), false),
        vec![
            EdgeCandidate { a: 0, b: 2, weight: 1 },
            EdgeCandidate { a: 2, b: 3, weight: 1 },
            EdgeCandidate { a: 0, b: 1, weight: 5 },
            EdgeCandidate { a: 1, b: 2, weight: 5 },
        ]
    );
    assert_eq!(
        sort_candidates(list, true),
        vec![
            EdgeCandidate { a: 0, b: 1, weight: 5 },
            EdgeCandidate { a: 1, b: 2, weight: 5 },
            EdgeCandidate { a: 0, b: 2, weight: 1 },
            EdgeCandidate { a: 2, b: 3, weight: 1 },
        ]
    );
}

#[test]
fn ties_are_broken_by_adjacency_order() {
    // A square: all four sides weigh the same, the diagonals more.
    let mut g = graph_at(&[(0, 0), (10, 0), (10, 10), (0, 10)]);
    g.add_edge(2, 3);
    g.add_edge(0, 1);
    g.add_edge(3, 0);
    g.add_edge(1, 2);
    let tree = g.covering_tree(false);
    // Tried in the order 0-1, 0-3, 1-2, 2-3: the last one closes the square.
    assert_eq!(tree.adjacencies(), &vec![vec![1, 3], vec![0, 2], vec![1], vec![0]]);
}

#[test]
fn tree_of_a_disconnected_graph_is_a_forest() {
    let mut g = graph_at(&[(0, 0), (1, 0), (0, 1), (50, 50), (60, 50), (70, 70)]);
    g.add_edge(0, 1);
    g.add_edge(1, 2);
    g.add_edge(2, 0);
    g.add_edge(3, 4);
    for flag in [false, true] {
        let tree = g.covering_tree(flag);
        assert!(!tree.has_cycle());
        // six nodes in three components
        assert_eq!(edge_count(&tree), 6 - 3);
        assert!(rows_are_simple(tree.adjacencies()));
    }
}

#[test]
fn tree_of_a_complete_graph_has_one_edge_less_than_nodes() {
    let mut g = graph_at(&[(0, 0), (7, 1), (3, 9), (-4, 2), (8, 8), (1, -6), (12, 3)]);
    g.add_every_edge();
    for flag in [false, true] {
        let tree = g.covering_tree(flag);
        assert!(!tree.has_cycle());
        assert_eq!(edge_count(&tree), 6);
    }
}

#[test]
fn tree_of_a_graph_without_edges_has_none() {
    let g = graph_at(&[(0, 0), (1, 1)]);
    let tree = g.covering_tree(false);
    assert_eq!(tree.adjacencies(), &vec![Vec::<usize>::new(), vec![]]);
}

#[test]
fn moving_a_node_changes_the_tree() {
    let mut g = Graph::pos2_to_graph(
        vec![Pos2::new(0, 0), Pos2::new(10, 0), Pos2::new(25, 0)],
        vec![vec![1, 2], vec![0, 2], vec![0, 1]],
    );
    assert_eq!(g.covering_tree(false).adjacencies(), &vec![vec![1], vec![0, 2], vec![1]]);
    // drag node 2 to the left of node 0
    g.update(&Event::PointerButton { pos: Pos2::new(25, 0), button: PointerButton::Primary, pressed: true });
    g.update(&Event::PointerMoved(Pos2::new(-5, 0)));
    g.update(&Event::PointerButton { pos: Pos2::new(-5, 0), button: PointerButton::Primary, pressed: false });
    assert_eq!(g.position_of(2), Pos2::new(-5, 0));
    assert_eq!(g.covering_tree(false).adjacencies(), &vec![vec![2, 1], vec![0], vec![0]]);
}

#[test]
fn traversal_flags_a_doubled_entry() {
    // Row 0 lists node 1 twice: the predecessor node is skipped on the way
    // back, but node 1 is reached twice from node 0.
    let lists: Vec<Vec<usize>> = vec![vec![1, 1], vec![0]];
    assert!(!rows_are_simple(&lists));
    assert!(rows_have_cycle_from(&lists, 0));
    assert!(!rows_have_cycle_from(&lists, 1));
    assert!(rows_have_cycle(&lists));
}

#[test]
fn rows_are_simple_checks_each_rule() {
    assert!(rows_are_simple(&vec![vec![1], vec![0, 2], vec![1]]));
    assert!(rows_are_simple(&Vec::<Vec<usize>>::new()));
    assert!(!rows_are_simple(&vec![vec![1], vec![]]));
    assert!(!rows_are_simple(&vec![vec![0]]));
    assert!(!rows_are_simple(&vec![vec![1, 1], vec![0]]));
    assert!(!rows_are_simple(&vec![vec![5]]));
}
