use graph::geometry::Pos2;
use graph::graph::Graph;
use graph::node::{pos2_to_node, Node};
use graph::vertex::Vertex;

fn rows(g: &Graph) -> Vec<Vec<usize>> {
    g.adjacencies().clone()
}

fn graph_on(n: usize) -> Graph {
    let mut g = Graph::default();
    for i in 0..n {
        g.add_node(Pos2::new(10 * i as i32, 0));
    }
    g
}

#[test]
fn empty_graph_has_nothing() {
    let g = Graph::default();
    assert_eq!(g.node_count(), 0);
    assert!(rows(&g).is_empty());
    assert!(!g.has_cycle());
    assert!(g.vertices().is_empty());
}

#[test]
fn add_node_then_edge() {
    let mut g = Graph::default();
    assert_eq!(g.add_node(Pos2::new(0, 0)), 0);
    assert_eq!(g.add_node(Pos2::new(5, 5)), 1);
    assert!(g.add_edge(0, 1));
    assert_eq!(rows(&g), vec![vec![1], vec![0]]);
    assert_eq!(g.node_count(), 2);
    assert_eq!(g.position_of(1), Pos2::new(5, 5));
    assert_eq!(g.neighbors(0), &vec![1]);
}

#[test]
fn add_node_numbers_nodes_by_index() {
    let g = graph_on(4);
    for (i, node) in g.nodes().iter().enumerate() {
        assert_eq!(node.id(), i);
        assert_eq!(*node, pos2_to_node(i, Pos2::new(10 * i as i32, 0)));
    }
}

#[test]
fn add_edge_twice_is_add_edge_once() {
    let mut g = graph_on(3);
    assert!(g.add_edge(0, 2));
    let once = rows(&g);
    assert!(!g.add_edge(0, 2));
    assert_eq!(rows(&g), once);
    assert!(!g.add_edge(2, 0));
    assert_eq!(rows(&g), once);
    assert_eq!(once, vec![vec![2], vec![], vec![0]]);
}

#[test]
fn add_edge_refuses_self_loop() {
    let mut g = graph_on(2);
    assert!(!g.add_edge(1, 1));
    assert_eq!(rows(&g), vec![Vec::<usize>::new(), vec![]]);
}

#[test]
fn rm_edge_removes_both_directions() {
    let mut g = graph_on(3);
    g.add_edge(0, 1);
    g.add_edge(1, 2);
    g.rm_edge(1, 0);
    assert_eq!(rows(&g), vec![vec![], vec![2], vec![1]]);
}

#[test]
fn rm_edge_of_absent_edge_changes_nothing() {
    let mut g = graph_on(3);
    g.add_edge(0, 1);
    g.rm_edge(0, 2);
    g.rm_edge(2, 2);
    assert_eq!(rows(&g), vec![vec![1], vec![0], vec![]]);
}

#[test]
fn toggle_twice_restores_the_pair() {
    let mut g = graph_on(3);
    g.add_edge(0, 1);
    g.add_rm_edge(1, 2);
    assert_eq!(rows(&g), vec![vec![1], vec![0, 2], vec![1]]);
    g.add_rm_edge(1, 2);
    assert_eq!(rows(&g), vec![vec![1], vec![0], vec![]]);
    g.add_rm_edge(0, 1);
    assert_eq!(rows(&g), vec![vec![], vec![], vec![]]);
    g.add_rm_edge(0, 1);
    assert_eq!(rows(&g), vec![vec![1], vec![0], vec![]]);
}

#[test]
fn toggle_of_a_node_with_itself_changes_nothing() {
    let mut g = graph_on(2);
    g.add_rm_edge(0, 0);
    assert_eq!(rows(&g), vec![Vec::<usize>::new(), vec![]]);
}

#[test]
fn raw_primitives_work_on_adjacency_lists() {
    let mut lists: Vec<Vec<usize>> = vec![vec![], vec![], vec![]];
    assert!(Graph::add_edge_(0, 1, &mut lists));
    assert!(!Graph::add_edge_(1, 0, &mut lists));
    Graph::add_rm_edge_(1, 2, &mut lists);
    assert_eq!(lists, vec![vec![1], vec![0, 2], vec![1]]);
    Graph::rm_edge_(0, 1, &mut lists);
    assert_eq!(lists, vec![vec![], vec![2], vec![1]]);
    Graph::add_rm_edge_(2, 1, &mut lists);
    assert_eq!(lists, vec![Vec::<usize>::new(), vec![], vec![]]);
}

#[test]
fn add_every_edge_on_four_nodes() {
    let mut g = graph_on(4);
    g.add_every_edge();
    let r = rows(&g);
    assert_eq!(r, vec![vec![1, 2, 3], vec![0, 2, 3], vec![0, 1, 3], vec![0, 1, 2]]);
    assert_eq!(g.vertices().len(), 6);
    for a in 0..4 {
        assert!(!r[a].contains(&a));
        for b in 0..4 {
            assert_eq!(r[a].contains(&b), r[b].contains(&a));
        }
    }
}

#[test]
fn add_every_edge_keeps_existing_edges_in_place() {
    let mut g = graph_on(3);
    g.add_edge(2, 0);
    g.add_every_edge();
    assert_eq!(rows(&g), vec![vec![2, 1], vec![0, 2], vec![0, 1]]);
}

#[test]
fn vertices_lists_each_edge_from_its_lower_end() {
    let mut g = graph_on(4);
    g.add_edge(3, 1);
    g.add_edge(2, 0);
    g.add_edge(0, 1);
    assert_eq!(g.vertices(), vec![Vertex::new(0, 2), Vertex::new(0, 1), Vertex::new(1, 3)]);
    assert_eq!(g.vertices()[1].node_id1(), 0);
    assert_eq!(g.vertices()[1].node_id2(), 1);
}

#[test]
fn triangle_has_a_cycle_and_path_has_none() {
    let mut g = graph_on(3);
    g.add_edge(0, 1);
    g.add_edge(1, 2);
    assert!(!g.has_cycle());
    for s in 0..3 {
        assert!(!g.has_cycle_from(s));
    }
    g.add_edge(2, 0);
    assert!(g.has_cycle());
    for s in 0..3 {
        assert!(g.has_cycle_from(s));
    }
}

#[test]
fn cycle_in_another_component_is_found_only_from_there() {
    let mut g = graph_on(5);
    g.add_edge(0, 1);
    g.add_edge(2, 3);
    g.add_edge(3, 4);
    g.add_edge(4, 2);
    assert!(!g.has_cycle_from(0));
    assert!(!g.has_cycle_from(1));
    assert!(g.has_cycle_from(2));
    assert!(g.has_cycle());
}

#[test]
fn new_takes_nodes_and_rows() {
    let nodes: Vec<Node> = vec![pos2_to_node(0, Pos2::new(1, 1)), pos2_to_node(1, Pos2::new(2, 2))];
    let g = Graph::new(nodes.clone(), vec![vec![1], vec![0]]);
    assert_eq!(g.nodes(), &nodes);
    assert_eq!(rows(&g), vec![vec![1], vec![0]]);
    assert_eq!(g.vertices(), vec![Vertex::new(0, 1)]);
}

#[test]
fn pos2_to_graph_numbers_the_positions() {
    let g = Graph::pos2_to_graph(
        vec![Pos2::new(0, 0), Pos2::new(3, 4), Pos2::new(6, 8)],
        vec![vec![1], vec![0, 2], vec![1]],
    );
    assert_eq!(g.node_count(), 3);
    assert_eq!(g.nodes()[2], pos2_to_node(2, Pos2::new(6, 8)));
    assert_eq!(rows(&g), vec![vec![1], vec![0, 2], vec![1]]);
    let mut h = g.graph_without_edges();
    assert_eq!(h.nodes(), g.nodes());
    assert_eq!(rows(&h), vec![Vec::<usize>::new(), vec![], vec![]]);
    assert_eq!(h.add_node(Pos2::new(9, 9)), 3);
}
