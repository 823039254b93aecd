//! How many edges a forest has: as many as it has nodes, less the number of
//! its components. A simple graph with more edges holds a cycle.

use vstd::prelude::*;
use crate::adjacency::{
    adjacent, edge_count, edges, empty_rows, lemma_after_add, lemma_edge_count_with_edge,
    lemma_edges, lemma_edges_upto_empty, lemma_with_edge, simple,
};
use crate::connectivity::{
    component_count, connected, lemma_connected_in_range, lemma_connected_induct,
    lemma_connected_mono, lemma_connected_self, lemma_connected_sym, lemma_connected_trans,
    lemma_same_components,
};
use crate::forest::{is_forest, is_rooted_tree, lemma_cyclic_iff_not_forest, tree_at};
use crate::geometry::Pos2;
use crate::lightest::{
    lemma_candidate_in_range, lemma_candidates_distinct, lemma_forest_keeps_all,
    lemma_init_taken_from,
};
use crate::node::Node;
use crate::tree::{candidates, grown, lemma_grown, lemma_tried, taken_from, weigh, EdgeCandidate};
use crate::vertex::Vertex;

verus! {

/// Trying edges keeps no more than were tried; if it keeps as many, every
/// one of them is an edge of what it leaves.
pub proof fn lemma_grown_count(adj: Seq<Seq<usize>>, list: Seq<EdgeCandidate>)
    requires
        simple(adj),
        taken_from(list, adj),
    ensures
        edge_count(grown(empty_rows(adj.len()), list)) <= list.len(),
        edge_count(grown(empty_rows(adj.len()), list)) == list.len() ==> forall|k: int|
            0 <= k < list.len() ==> adjacent(
                grown(empty_rows(adj.len()), list),
                (#[trigger] list[k]).a,
                list[k].b,
            ),
    decreases list.len(),
{
    let n = adj.len();
    if list.len() == 0 {
        lemma_edges_upto_empty(n, n);
    } else {
        let init = list.drop_last();
        let a = list.last().a;
        let b = list.last().b;
        let before = grown(empty_rows(n), init);
        let after = grown(empty_rows(n), list);
        lemma_init_taken_from(list, adj);
        lemma_grown_count(adj, init);
        lemma_grown(adj, init);
        lemma_candidate_in_range(adj, list, list.len() - 1);
        lemma_tried(before, a, b);
        lemma_after_add(before, a, b);
        if after != before {
            assert(!adjacent(before, a, b));
            assert(!adjacent(before, b, a));
            lemma_with_edge(before, a, b);
            lemma_edge_count_with_edge(before, a, b);
        }
        if edge_count(after) == list.len() {
            assert forall|k: int| 0 <= k < list.len() implies adjacent(
                after,
                (#[trigger] list[k]).a,
                list[k].b,
            ) by {
                if k < init.len() {
                    assert(init[k] == list[k]);
                    assert(adjacent(before, init[k].a, init[k].b));
                }
            }
        }
    }
}

/// Whether a graph is a forest depends on which nodes are neighbours, not
/// on the order of the rows.
pub proof fn lemma_forest_by_neighbours(one: Seq<Seq<usize>>, other: Seq<Seq<usize>>)
    requires
        one.len() == other.len(),
        forall|u: usize, v: usize| adjacent(one, u, v) <==> adjacent(other, u, v),
        is_forest(one),
    ensures
        is_forest(other),
{
    assert forall|u: usize, v: usize| connected(one, u, v) <==> connected(other, u, v) by {
        if connected(one, u, v) {
            lemma_connected_mono(one, other, u, v);
        }
        if connected(other, u, v) {
            lemma_connected_mono(other, one, u, v);
        }
    }
    assert forall|root: usize| root < other.len() implies #[trigger] tree_at(other, root) by {
        assert(tree_at(one, root));
        let (parent, rank) = choose|parent: Seq<usize>, rank: Seq<nat>|
            is_rooted_tree(one, root, parent, rank);
        assert forall|v: usize| #[trigger] connected(other, root, v) && v != root implies adjacent(
            other,
            v,
            parent[v as int],
        ) && rank[parent[v as int] as int] < rank[v as int] by {
            assert(connected(one, root, v));
        }
        assert forall|v: usize, x: usize|
            connected(other, root, v) && #[trigger] adjacent(other, v, x) implies (v != root && x
            == parent[v as int]) || (x != root && parent[x as int] == v) by {
            assert(connected(one, root, v));
            assert(adjacent(one, v, x));
        }
        assert(is_rooted_tree(other, root, parent, rank));
    }
}

/// A simple graph is a forest exactly if it has as many edges as it has
/// nodes, less the number of its components.
pub proof fn lemma_forest_iff_edge_count(adj: Seq<Seq<usize>>)
    requires
        simple(adj),
    ensures
        is_forest(adj) <==> edge_count(adj) + component_count(adj) == adj.len(),
        !is_forest(adj) <==> edge_count(adj) + component_count(adj) > adj.len(),
{
    let n = adj.len();
    // every edge of the graph, tried on rows without an entry
    let nodes = Seq::new(n, |i: int| Node::fresh(i as usize, Pos2 { x: 0, y: 0 }));
    let list = candidates(nodes, adj);
    lemma_edges(adj);
    lemma_candidates_distinct(nodes, adj);
    assert(taken_from(list, adj)) by {
        assert forall|k: int| 0 <= k < list.len() implies adjacent(
            adj,
            (#[trigger] list[k]).a,
            list[k].b,
        ) by {
            assert(edges(adj).contains(edges(adj)[k]));
        }
    }
    let kept = grown(empty_rows(n), list);
    lemma_grown(adj, list);
    lemma_grown_count(adj, list);
    lemma_cyclic_iff_not_forest(adj);
    lemma_cyclic_iff_not_forest(kept);
    // what is kept connects what the graph connects
    assert forall|u: usize, v: usize| connected(kept, u, v) <==> connected(adj, u, v) by {
        if connected(kept, u, v) {
            lemma_connected_mono(kept, adj, u, v);
        }
        if connected(adj, u, v) {
            let reached = |x: usize| connected(kept, u, x);
            lemma_connected_in_range(adj, u, v);
            lemma_connected_self(kept, u);
            assert forall|x: usize, y: usize| reached(x) && #[trigger] adjacent(
                adj,
                x,
                y,
            ) implies reached(y) by {
                assert(adjacent(adj, y, x));
                assert(x != y);
                let edge = if x < y {
                    Vertex { node_id1: x, node_id2: y }
                } else {
                    Vertex { node_id1: y, node_id2: x }
                };
                assert(edges(adj).contains(edge));
                let k = choose|k: int| 0 <= k < edges(adj).len() && edges(adj)[k] == edge;
                assert(list[k] == weigh(nodes, edge));
                assert(connected(kept, list[k].a, list[k].b));
                if y < x {
                    lemma_connected_sym(kept, y, x);
                }
                lemma_connected_trans(kept, u, x, y);
            }
            lemma_connected_induct(adj, u, v, reached);
        }
    }
    lemma_same_components(kept, adj, n);
    assert(edge_count(adj) == list.len());
    if is_forest(adj) {
        lemma_forest_keeps_all(adj, list);
    }
    if edge_count(kept) == list.len() {
        // every edge was kept: the graph has the neighbours of a forest
        assert forall|u: usize, v: usize| adjacent(kept, u, v) <==> adjacent(adj, u, v) by {
            if adjacent(adj, u, v) {
                assert(adjacent(adj, v, u));
                assert(u != v);
                let edge = if u < v {
                    Vertex { node_id1: u, node_id2: v }
                } else {
                    Vertex { node_id1: v, node_id2: u }
                };
                assert(edges(adj).contains(edge));
                let k = choose|k: int| 0 <= k < edges(adj).len() && edges(adj)[k] == edge;
                assert(list[k] == weigh(nodes, edge));
                assert(adjacent(kept, list[k].a, list[k].b));
                assert(adjacent(kept, list[k].b, list[k].a));
            }
        }
        lemma_forest_by_neighbours(kept, adj);
    }
}

} // verus!
