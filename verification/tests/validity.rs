use graph::adjacency::{list_contains, list_remove, rows_in_range};
use graph::geometry::{Pos2, Vec2};
use graph::graph::Graph;
use graph::node::pos2_to_node;

fn positions(n: usize) -> Vec<Pos2> {
    (0..n).map(|i| Pos2::new(20 * i as i32, 0)).collect()
}

#[test]
fn graphs_made_by_the_operations_are_valid_and_simple() {
    let mut g = Graph::default();
    assert!(g.is_valid());
    assert!(g.is_simple());
    for p in positions(4) {
        g.add_node(p);
    }
    g.add_edge(0, 1);
    g.add_rm_edge(2, 3);
    g.add_rm_edge(1, 1);
    g.rm_edge(0, 3);
    assert!(g.is_valid());
    assert!(g.is_simple());
    g.add_every_edge();
    assert!(g.is_valid());
    assert!(g.is_simple());
    let tree = g.covering_tree(true);
    assert!(tree.is_valid());
    assert!(tree.is_simple());
}

#[test]
fn rows_that_name_no_node_make_an_invalid_graph() {
    let g = Graph::pos2_to_graph(positions(2), vec![vec![2], vec![]]);
    assert!(!g.is_valid());
    assert!(!g.is_simple());
    assert!(!rows_in_range(&vec![vec![2], vec![]]));
    assert!(rows_in_range(&vec![vec![1], vec![]]));
    assert!(rows_in_range(&Vec::<Vec<usize>>::new()));
}

#[test]
fn nodes_out_of_number_make_an_invalid_graph() {
    let nodes = vec![pos2_to_node(0, Pos2::new(0, 0)), pos2_to_node(5, Pos2::new(9, 9))];
    let g = Graph::new(nodes, vec![vec![], vec![]]);
    assert!(!g.is_valid());
    assert!(g.is_simple());
}

#[test]
fn one_sided_rows_are_valid_but_not_simple() {
    let mut g = Graph::pos2_to_graph(positions(2), vec![vec![1], vec![]]);
    assert!(g.is_valid());
    assert!(!g.is_simple());
    // the edge counts as there for adding, and as absent for toggling and removing
    assert!(!g.add_edge(0, 1));
    assert!(!g.add_edge(1, 0));
    g.add_rm_edge(0, 1);
    assert_eq!(g.adjacencies(), &vec![vec![1], vec![]]);
    g.rm_edge(1, 0);
    assert_eq!(g.adjacencies(), &vec![Vec::<usize>::new(), vec![]]);
    assert!(g.is_simple());
}

#[test]
fn doubled_entry_is_reported_as_a_cycle() {
    let g = Graph::pos2_to_graph(positions(2), vec![vec![1, 1], vec![0]]);
    assert!(g.is_valid());
    assert!(!g.is_simple());
    assert!(g.has_cycle_from(0));
    assert!(!g.has_cycle_from(1));
    assert!(g.has_cycle());
    // the tree is made of each edge as often as row 0 lists it, and is simple
    let tree = g.covering_tree(false);
    assert_eq!(tree.adjacencies(), &vec![vec![1], vec![0]]);
}

#[test]
fn list_helpers() {
    let mut list = vec![3, 1, 3, 2];
    assert!(list_contains(&list, 2));
    assert!(!list_contains(&list, 0));
    list_remove(&mut list, 3);
    assert_eq!(list, vec![1, 2]);
    list_remove(&mut list, 7);
    assert_eq!(list, vec![1, 2]);
    let mut none: Vec<usize> = Vec::new();
    list_remove(&mut none, 1);
    assert!(none.is_empty());
    assert!(!list_contains(&none, 1));
}

#[test]
fn move_by_shifts_the_centre_only() {
    let mut n = pos2_to_node(2, Pos2::new(10, 10));
    n.set_drag_start(Pos2::new(1, 1));
    n.move_by(Vec2::new(-15, 5));
    assert_eq!(n.pos(), Pos2::new(-5, 15));
    assert_eq!(n.drag_start(), Pos2::new(1, 1));
    assert_eq!(n.id(), 2);
    n.move_by(Vec2::new(i64::MIN, 0));
    assert_eq!(n.pos(), Pos2::new(i32::MIN, 15));
}
