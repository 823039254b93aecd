use graph::geometry::Pos2;
use graph::graph::Graph;
use graph::tree::EdgeCandidate;

const POINTS: [(i32, i32); 5] = [(0, 0), (9, 1), (4, 7), (-3, 5), (6, -6)];

fn complete() -> Graph {
    let mut g = Graph::default();
    for (x, y) in POINTS {
        g.add_node(Pos2::new(x, y));
    }
    g.add_every_edge();
    g
}

fn weights(g: &Graph) -> Vec<u128> {
    let mut w: Vec<u128> = g.candidates().iter().map(|c| c.weight).collect();
    w.sort();
    w
}

/// Every spanning tree of the complete graph, as the weights of its edges
/// in ascending order.
fn all_spanning_trees(g: &Graph) -> Vec<Vec<u128>> {
    let all: Vec<EdgeCandidate> = g.candidates();
    let n = g.node_count();
    let mut found = Vec::new();
    for mask in 0u32..(1 << all.len()) {
        if mask.count_ones() as usize != n - 1 {
            continue;
        }
        let mut t = g.graph_without_edges();
        for (i, c) in all.iter().enumerate() {
            if mask & (1 << i) != 0 {
                t.add_edge(c.a, c.b);
            }
        }
        if !t.has_cycle() {
            found.push(weights(&t));
        }
    }
    found
}

#[test]
fn five_nodes_have_a_hundred_and_twenty_five_spanning_trees() {
    assert_eq!(all_spanning_trees(&complete()).len(), 125);
}

#[test]
fn minimum_tree_is_lightest_edge_by_edge() {
    let g = complete();
    let tree = weights(&g.covering_tree(false));
    assert_eq!(tree, vec![34, 53, 58, 61]);
    for other in all_spanning_trees(&g) {
        for k in 0..tree.len() {
            assert!(tree[k] <= other[k]);
        }
        assert!(tree.iter().sum::<u128>() <= other.iter().sum::<u128>());
    }
}

#[test]
fn maximum_tree_is_heaviest_edge_by_edge() {
    let g = complete();
    let tree = weights(&g.covering_tree(true));
    assert_eq!(tree, vec![82, 160, 173, 202]);
    for other in all_spanning_trees(&g) {
        for k in 0..tree.len() {
            assert!(tree[k] >= other[k]);
        }
    }
}
