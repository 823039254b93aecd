//! Laws of the graph store.

use vstd::prelude::*;
use crate::adjacency::{
    adjacent, after_add, after_remove, after_toggle, empty_rows, joined_all, lemma_after_add,
    lemma_after_add_keeps, lemma_after_add_simple, lemma_after_remove, lemma_after_remove_keeps,
    lemma_after_remove_simple, lemma_after_toggle_keeps, lemma_empty_rows_simple, lemma_joined_all,
    lemma_push_empty_row, lemma_remove_undoes_add, lemma_with_edge, loop_free, simple, symmetric,
};
use crate::editor::{lemma_after_keeps, lemma_after_valid};
use crate::event::Event;
use crate::geometry::Pos2;
use crate::graph::{lemma_with_node_valid, GraphView};

verus! {

/// Where the rows are symmetric, `b` is a neighbour of `a` exactly if `a`
/// is a neighbour of `b`.
pub proof fn lemma_neighbours_symmetric(g: GraphView, a: usize, b: usize)
    requires
        symmetric(g.adjacencies),
    ensures
        adjacent(g.adjacencies, a, b) <==> adjacent(g.adjacencies, b, a),
{
    if adjacent(g.adjacencies, a, b) {
        assert(adjacent(g.adjacencies, b, a));
    }
    if adjacent(g.adjacencies, b, a) {
        assert(adjacent(g.adjacencies, a, b));
    }
}

/// The rows of the empty graph are symmetric, and every operation of the
/// graph store and every event leaves symmetric rows symmetric. So the rows
/// of a graph are symmetric unless it was made from rows that were not.
pub proof fn lemma_operations_keep_symmetric(
    g: GraphView,
    a: usize,
    b: usize,
    pos: Pos2,
    event: Event,
)
    requires
        g.valid(),
        symmetric(g.adjacencies),
        g.nodes.len() < usize::MAX,
    ensures
        symmetric(GraphView::empty().adjacencies),
        symmetric(g.with_node(pos).adjacencies),
        a < g.nodes.len() && b < g.nodes.len() ==> {
            &&& symmetric(after_add(g.adjacencies, a, b))
            &&& symmetric(after_remove(g.adjacencies, a, b))
            &&& symmetric(after_toggle(g.adjacencies, a, b))
        },
        symmetric(joined_all(g.adjacencies, g.nodes.len())),
        symmetric(g.after(event).adjacencies),
        symmetric(g.without_edges().adjacencies),
{
    lemma_empty_rows_simple(0);
    assert(GraphView::empty().adjacencies =~= empty_rows(0));
    lemma_empty_rows_simple(g.nodes.len());
    lemma_push_empty_row(g.adjacencies);
    if a < g.nodes.len() && b < g.nodes.len() {
        lemma_after_toggle_keeps(g.adjacencies, a, b);
        lemma_after_add_keeps(g.adjacencies, a, b);
        lemma_after_remove_keeps(g.adjacencies, a, b);
    }
    lemma_joined_all(g.adjacencies, g.nodes.len());
    lemma_after_keeps(g, event);
}

/// Where the rows are free of self-loops, no node is its own neighbour.
pub proof fn lemma_no_self_loop(g: GraphView, a: usize)
    requires
        loop_free(g.adjacencies),
    ensures
        !adjacent(g.adjacencies, a, a),
{
}

/// The rows of the empty graph are free of self-loops, and every operation
/// of the graph store and every event leaves them so. So no node of a graph
/// is its own neighbour unless the graph was made from rows in which one
/// was.
pub proof fn lemma_operations_keep_loop_free(
    g: GraphView,
    a: usize,
    b: usize,
    pos: Pos2,
    event: Event,
)
    requires
        g.valid(),
        loop_free(g.adjacencies),
        g.nodes.len() < usize::MAX,
    ensures
        loop_free(GraphView::empty().adjacencies),
        loop_free(g.with_node(pos).adjacencies),
        a < g.nodes.len() && b < g.nodes.len() ==> {
            &&& loop_free(after_add(g.adjacencies, a, b))
            &&& loop_free(after_remove(g.adjacencies, a, b))
            &&& loop_free(after_toggle(g.adjacencies, a, b))
        },
        loop_free(joined_all(g.adjacencies, g.nodes.len())),
        loop_free(g.after(event).adjacencies),
        loop_free(g.without_edges().adjacencies),
{
    lemma_empty_rows_simple(0);
    assert(GraphView::empty().adjacencies =~= empty_rows(0));
    lemma_empty_rows_simple(g.nodes.len());
    lemma_push_empty_row(g.adjacencies);
    if a < g.nodes.len() && b < g.nodes.len() {
        lemma_after_toggle_keeps(g.adjacencies, a, b);
        lemma_after_add_keeps(g.adjacencies, a, b);
        lemma_after_remove_keeps(g.adjacencies, a, b);
    }
    lemma_joined_all(g.adjacencies, g.nodes.len());
    lemma_after_keeps(g, event);
}

/// The operations of the graph store and every event leave a simple graph
/// simple: symmetric, free of self-loops and free of parallel edges.
pub proof fn lemma_operations_keep_simple(g: GraphView, a: usize, b: usize, pos: Pos2, event: Event)
    requires
        g.valid(),
        g.is_simple(),
        g.nodes.len() < usize::MAX,
    ensures
        GraphView::empty().is_simple(),
        g.with_node(pos).is_simple(),
        a < g.nodes.len() && b < g.nodes.len() ==> {
            &&& g.with_rows(after_add(g.adjacencies, a, b)).is_simple()
            &&& g.with_rows(after_remove(g.adjacencies, a, b)).is_simple()
            &&& g.with_rows(after_toggle(g.adjacencies, a, b)).is_simple()
        },
        g.with_rows(joined_all(g.adjacencies, g.nodes.len())).is_simple(),
        g.after(event).is_simple(),
        g.without_edges().is_simple(),
{
    lemma_empty_rows_simple(0);
    assert(GraphView::empty().adjacencies =~= empty_rows(0));
    lemma_empty_rows_simple(g.nodes.len());
    lemma_with_node_valid(g, pos);
    if a < g.nodes.len() && b < g.nodes.len() {
        lemma_after_add_simple(g.adjacencies, a, b);
        lemma_after_remove_simple(g.adjacencies, a, b);
    }
    lemma_joined_all(g.adjacencies, g.nodes.len());
    lemma_after_valid(g, event);
}

/// Adding an edge twice leaves what adding it once leaves.
pub proof fn lemma_add_edge_idempotent(adj: Seq<Seq<usize>>, a: usize, b: usize)
    requires
        a < adj.len(),
        b < adj.len(),
    ensures
        after_add(after_add(adj, a, b), a, b) == after_add(adj, a, b),
{
    if a != b && !adjacent(adj, a, b) && !adjacent(adj, b, a) {
        lemma_with_edge(adj, a, b);
    }
}

/// Toggling an edge twice leaves every pair of nodes joined or apart as it
/// was; where the edge was absent, the rows are the same again.
pub proof fn lemma_toggle_twice(adj: Seq<Seq<usize>>, a: usize, b: usize)
    requires
        simple(adj),
        a < adj.len(),
        b < adj.len(),
    ensures
        forall|u: usize, v: usize|
            adjacent(after_toggle(after_toggle(adj, a, b), a, b), u, v) <==> adjacent(adj, u, v),
        !adjacent(adj, a, b) ==> after_toggle(after_toggle(adj, a, b), a, b) == adj,
{
    let once = after_toggle(adj, a, b);
    let twice = after_toggle(once, a, b);
    if adjacent(adj, a, b) {
        assert(adjacent(adj, b, a));
        assert(a != b);
        lemma_after_remove(adj, a, b);
        lemma_after_remove_simple(adj, a, b);
        assert(once == after_remove(adj, a, b));
        assert(!adjacent(once, a, b));
        lemma_after_add(once, a, b);
        assert(twice == after_add(once, a, b));
        assert forall|u: usize, v: usize| adjacent(twice, u, v) <==> adjacent(adj, u, v) by {
        }
    } else {
        assert(!adjacent(adj, b, a));
        if a != b {
            lemma_with_edge(adj, a, b);
            lemma_remove_undoes_add(adj, a, b);
        }
    }
}

} // verus!
