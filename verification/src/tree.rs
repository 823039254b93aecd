//! The spanning tree builder.
//!
//! Every edge becomes a candidate weighted by the distance between its ends.
//! The candidates are tried in the order of their weights: a candidate is
//! added to the tree, and taken out again if the cycle detector then reports
//! a cycle.
//!
//! Distances are compared through their squares, which order the edges as
//! the distances do and are exact.

use vstd::prelude::*;
use vstd::seq_lib::{to_multiset_build, to_multiset_insert};
use crate::adjacency::{
    adjacent, after_add, after_remove, edge_count, edges, empty_rows, lemma_after_add_simple,
    lemma_edge_count_with_edge, lemma_edges, lemma_edges_upto_empty, lemma_empty_rows_simple,
    lemma_remove_undoes_add, lemma_with_edge, simple, with_edge,
};
use crate::connectivity::{
    component_count, connected, extends_by, lemma_adjacent_connected, lemma_components_after_join,
    lemma_connected_in_range, lemma_connected_induct, lemma_connected_mono, lemma_connected_self, lemma_connected_sym,
    lemma_connected_trans, lemma_empty_components, lemma_same_components,
};
use crate::cycle::{cycle_from, cyclic, pushed, search};
use crate::forest::{is_forest, lemma_cyclic_extended, lemma_cyclic_iff_not_forest};
use crate::geometry::dist_sq;
use crate::graph::Graph;
use crate::lightest::{count_within, forest_within, lemma_spanning_rows_lightest};
use crate::node::Node;
use crate::vertex::Vertex;

verus! {

/// An edge with its weight: the square of the distance between its ends.
#[derive(Clone, Copy, Debug, PartialEq, Eq, Structural)]
pub struct EdgeCandidate {
    pub a: usize,
    pub b: usize,
    pub weight: u128,
}

/// The candidate for `edge` between `nodes`.
pub open spec fn weigh(nodes: Seq<Node>, edge: Vertex) -> EdgeCandidate {
    EdgeCandidate {
        a: edge.node_id1,
        b: edge.node_id2,
        weight: dist_sq(
            nodes[edge.node_id1 as int].circle.center,
            nodes[edge.node_id2 as int].circle.center,
        ) as u128,
    }
}

/// One candidate for every edge, in the order of `edges`.
pub open spec fn candidates(nodes: Seq<Node>, adj: Seq<Seq<usize>>) -> Seq<EdgeCandidate> {
    Seq::new(edges(adj).len(), |i: int| weigh(nodes, edges(adj)[i]))
}

/// Whether `x` has to be tried after `e`: it is heavier, or lighter when the
/// order is descending.
pub open spec fn goes_after(x: EdgeCandidate, e: EdgeCandidate, descending: bool) -> bool {
    if descending {
        x.weight < e.weight
    } else {
        x.weight > e.weight
    }
}

/// Whether no candidate of `list` stands before one that it has to be tried
/// after.
pub open spec fn in_order(list: Seq<EdgeCandidate>, descending: bool) -> bool {
    forall|i: int, j: int|
        0 <= i < j < list.len() ==> !goes_after(#[trigger] list[i], #[trigger] list[j], descending)
}

/// `list`, which is in order, with `e` put behind every candidate that it
/// need not be tried before.
pub open spec fn inserted(list: Seq<EdgeCandidate>, e: EdgeCandidate, descending: bool) -> Seq<
    EdgeCandidate,
>
    decreases list.len(),
{
    if list.len() == 0 {
        seq![e]
    } else if goes_after(list.last(), e, descending) {
        inserted(list.drop_last(), e, descending).push(list.last())
    } else {
        list.push(e)
    }
}

/// The candidates in the order in which they are tried: by weight, and
/// candidates of equal weight in the order of `list`.
pub open spec fn ordered(list: Seq<EdgeCandidate>, descending: bool) -> Seq<EdgeCandidate>
    decreases list.len(),
{
    if list.len() == 0 {
        list
    } else {
        inserted(ordered(list.drop_last(), descending), list.last(), descending)
    }
}

/// The rows after the edge `{a, b}` was tried: it is added, and removed
/// again if the cycle detector then reports a cycle.
pub open spec fn tried(tree: Seq<Seq<usize>>, a: usize, b: usize) -> Seq<Seq<usize>> {
    let joined = after_add(tree, a, b);
    if cyclic(joined) {
        after_remove(joined, a, b)
    } else {
        joined
    }
}

/// The rows after the candidates of `list` were tried in turn.
pub open spec fn grown(tree: Seq<Seq<usize>>, list: Seq<EdgeCandidate>) -> Seq<Seq<usize>>
    decreases list.len(),
{
    if list.len() == 0 {
        tree
    } else {
        tried(grown(tree, list.drop_last()), list.last().a, list.last().b)
    }
}

/// The rows of the spanning tree of the graph on `nodes` with rows `adj`.
pub open spec fn spanning_rows(nodes: Seq<Node>, adj: Seq<Seq<usize>>, descending: bool) -> Seq<
    Seq<usize>,
> {
    grown(empty_rows(nodes.len()), ordered(candidates(nodes, adj), descending))
}

/// Where `inserted` puts `e`: at an index `at` such that everything from
/// `at` on has to be tried after `e` and nothing before `at` has.
pub proof fn lemma_inserted(list: Seq<EdgeCandidate>, e: EdgeCandidate, descending: bool) -> (at: int)
    requires
        in_order(list, descending),
    ensures
        0 <= at <= list.len(),
        inserted(list, e, descending) == list.insert(at, e),
        forall|k: int| at <= k < list.len() ==> goes_after(#[trigger] list[k], e, descending),
        forall|k: int| 0 <= k < at ==> !goes_after(#[trigger] list[k], e, descending),
        in_order(inserted(list, e, descending), descending),
    decreases list.len(),
{
    if list.len() == 0 {
        assert(seq![e] =~= list.insert(0, e));
        0
    } else if goes_after(list.last(), e, descending) {
        let init = list.drop_last();
        let at = lemma_inserted(init, e, descending);
        assert(init.insert(at, e).push(list.last()) =~= list.insert(at, e));
        let out = list.insert(at, e);
        assert forall|k: int| at <= k < list.len() implies goes_after(
            #[trigger] list[k],
            e,
            descending,
        ) by {
            if k < init.len() {
                assert(init[k] == list[k]);
            }
        }
        assert forall|k: int| 0 <= k < at implies !goes_after(#[trigger] list[k], e, descending) by {
            assert(init[k] == list[k]);
        }
        assert forall|i: int, j: int| 0 <= i < j < out.len() implies !goes_after(
            #[trigger] out[i],
            #[trigger] out[j],
            descending,
        ) by {
            let li = if i < at {
                i
            } else {
                i - 1
            };
            let lj = if j < at {
                j
            } else {
                j - 1
            };
            if i != at && j != at {
                assert(!goes_after(list[li], list[lj], descending));
            } else if i == at {
                assert(goes_after(list[lj], e, descending));
            } else {
                assert(!goes_after(list[li], e, descending));
            }
        }
        at
    } else {
        let at = list.len() as int;
        assert(list.push(e) =~= list.insert(at, e));
        let out = list.insert(at, e);
        assert forall|k: int| 0 <= k < at implies !goes_after(#[trigger] list[k], e, descending) by {
            if k < at - 1 {
                assert(!goes_after(list[k], list[at - 1], descending));
            }
        }
        assert forall|i: int, j: int| 0 <= i < j < out.len() implies !goes_after(
            #[trigger] out[i],
            #[trigger] out[j],
            descending,
        ) by {
            if j < at {
                assert(!goes_after(list[i], list[j], descending));
            }
        }
        at
    }
}

/// The order of trial is a rearrangement of the candidates, and it is in
/// order.
pub proof fn lemma_ordered(list: Seq<EdgeCandidate>, descending: bool)
    ensures
        ordered(list, descending).to_multiset() == list.to_multiset(),
        ordered(list, descending).len() == list.len(),
        in_order(ordered(list, descending), descending),
        forall|e: EdgeCandidate| ordered(list, descending).contains(e) <==> list.contains(e),
    decreases list.len(),
{
    broadcast use vstd::seq_lib::to_multiset_contains;

    if list.len() > 0 {
        let init = list.drop_last();
        lemma_ordered(init, descending);
        let at = lemma_inserted(ordered(init, descending), list.last(), descending);
        to_multiset_insert(ordered(init, descending), at, list.last());
        to_multiset_build(init, list.last());
        assert(list =~= init.push(list.last()));
    }
    assert forall|e: EdgeCandidate| ordered(list, descending).contains(e) <==> list.contains(e) by {
        assert(ordered(list, descending).to_multiset().count(e) == list.to_multiset().count(e));
    }
}

/// The candidates of `list` that weigh `weight`, in order.
pub open spec fn of_weight(list: Seq<EdgeCandidate>, weight: u128) -> Seq<EdgeCandidate>
    decreases list.len(),
{
    if list.len() == 0 {
        list
    } else if list.last().weight == weight {
        of_weight(list.drop_last(), weight).push(list.last())
    } else {
        of_weight(list.drop_last(), weight)
    }
}

/// A candidate put in before candidates of other weights only comes last
/// among those of its own weight.
proof fn lemma_of_weight_insert(list: Seq<EdgeCandidate>, at: int, e: EdgeCandidate, weight: u128)
    requires
        0 <= at <= list.len(),
        forall|k: int| at <= k < list.len() ==> (#[trigger] list[k]).weight != e.weight,
    ensures
        of_weight(list.insert(at, e), weight) == if e.weight == weight {
            of_weight(list, weight).push(e)
        } else {
            of_weight(list, weight)
        },
    decreases list.len(),
{
    if at == list.len() {
        assert(list.insert(at, e) =~= list.push(e));
        assert(list.push(e).drop_last() =~= list);
    } else {
        let init = list.drop_last();
        let last = list.last();
        assert(list[list.len() - 1].weight != e.weight);
        assert forall|k: int| at <= k < init.len() implies (#[trigger] init[k]).weight
            != e.weight by {
            assert(init[k] == list[k]);
        }
        lemma_of_weight_insert(init, at, e, weight);
        assert(list.insert(at, e) =~= init.insert(at, e).push(last));
        assert(init.insert(at, e).push(last).drop_last() =~= init.insert(at, e));
    }
}

/// Candidates of equal weight are tried in the order in which they came.
pub proof fn lemma_ordered_stable(list: Seq<EdgeCandidate>, descending: bool, weight: u128)
    ensures
        of_weight(ordered(list, descending), weight) == of_weight(list, weight),
    decreases list.len(),
{
    if list.len() > 0 {
        let init = list.drop_last();
        let sorted = ordered(init, descending);
        lemma_ordered_stable(init, descending, weight);
        lemma_ordered(init, descending);
        let at = lemma_inserted(sorted, list.last(), descending);
        lemma_of_weight_insert(sorted, at, list.last(), weight);
    }
}

/// Whether `x` has to be tried after `e`.
fn tried_after(x: &EdgeCandidate, e: &EdgeCandidate, descending: bool) -> (r: bool)
    ensures
        r == goes_after(*x, *e, descending),
{
    if descending {
        x.weight < e.weight
    } else {
        x.weight > e.weight
    }
}

/// Sorts the candidates by weight, ascending or descending, and keeps
/// candidates of equal weight in the order in which they came.
pub fn sort_candidates(list: Vec<EdgeCandidate>, descending: bool) -> (out: Vec<EdgeCandidate>)
    ensures
        out@ == ordered(list@, descending),
        out@.to_multiset() == list@.to_multiset(),
        in_order(out@, descending),
        forall|weight: u128| #[trigger] of_weight(out@, weight) == of_weight(list@, weight),
{
    let mut out: Vec<EdgeCandidate> = Vec::new();
    let mut i: usize = 0;
    proof {
        assert(list@.take(0) =~= Seq::<EdgeCandidate>::empty());
    }
    while i < list.len()
        invariant
            i <= list.len(),
            out@ == ordered(list@.take(i as int), descending),
        decreases list.len() - i,
    {
        let e = list[i];
        let mut j: usize = out.len();
        while j > 0 && tried_after(&out[j - 1], &e, descending)
            invariant
                j <= out.len(),
                forall|k: int| j <= k < out.len() ==> goes_after(#[trigger] out@[k], e, descending),
            decreases j,
        {
            j -= 1;
        }
        proof {
            let sorted = out@;
            lemma_ordered(list@.take(i as int), descending);
            let at = lemma_inserted(sorted, e, descending);
            if at < j {
                assert(goes_after(sorted[j - 1], e, descending));
            }
            if j < at {
                assert(goes_after(sorted[j as int], e, descending));
            }
            assert(at == j);
            assert(list@.take(i + 1).drop_last() =~= list@.take(i as int));
        }
        out.insert(j, e);
        i += 1;
    }
    proof {
        assert(list@.take(i as int) =~= list@);
        lemma_ordered(list@, descending);
        assert forall|weight: u128| #[trigger]
            of_weight(out@, weight) == of_weight(list@, weight) by {
            lemma_ordered_stable(list@, descending, weight);
        }
    }
    out
}

/// The traversal finds no cycle where there are no edges.
pub proof fn lemma_empty_rows_acyclic(n: nat)
    ensures
        !cyclic(empty_rows(n)),
{
    let adj = empty_rows(n);
    assert forall|start: usize| start < adj.len() implies !#[trigger] cycle_from(adj, start) by {
        reveal_with_fuel(search, 3);
        reveal_with_fuel(pushed, 2);
        let stack = seq![(start, start)];
        assert(stack.last() == (start, start));
        assert(adj[start as int] =~= Seq::<usize>::empty());
        assert(stack.drop_last() =~= Seq::<(usize, usize)>::empty());
    }
}

/// Trying an edge on a tree leaves a tree: simple, with as many rows, and
/// without a cycle for the traversal to find.
pub proof fn lemma_tried(tree: Seq<Seq<usize>>, a: usize, b: usize)
    requires
        simple(tree),
        !cyclic(tree),
        a < tree.len(),
        b < tree.len(),
    ensures
        simple(tried(tree, a, b)),
        !cyclic(tried(tree, a, b)),
        tried(tree, a, b).len() == tree.len(),
        tried(tree, a, b) == tree || tried(tree, a, b) == after_add(tree, a, b),
{
    lemma_after_add_simple(tree, a, b);
    if a != b && !adjacent(tree, a, b) && !adjacent(tree, b, a) {
        lemma_remove_undoes_add(tree, a, b);
    }
}

/// On a forest, trying an edge that is not there keeps it exactly if its
/// ends were not connected.
pub proof fn lemma_tried_joins_apart(tree: Seq<Seq<usize>>, a: usize, b: usize)
    requires
        simple(tree),
        !cyclic(tree),
        a < tree.len(),
        b < tree.len(),
        a != b,
        !adjacent(tree, a, b),
    ensures
        tried(tree, a, b) == if connected(tree, a, b) {
            tree
        } else {
            with_edge(tree, a, b)
        },
{
    assert(!adjacent(tree, b, a)) by {
        if adjacent(tree, b, a) {
            assert(adjacent(tree, a, b));
        }
    }
    let joined = with_edge(tree, a, b);
    lemma_with_edge(tree, a, b);
    lemma_after_add_simple(tree, a, b);
    assert(extends_by(tree, joined, a, b));
    lemma_cyclic_extended(tree, joined, a, b);
    lemma_remove_undoes_add(tree, a, b);
}

/// Whether every candidate of `list` is an edge of the graph `adj`.
pub open spec fn taken_from(list: Seq<EdgeCandidate>, adj: Seq<Seq<usize>>) -> bool {
    forall|k: int| 0 <= k < list.len() ==> adjacent(adj, (#[trigger] list[k]).a, list[k].b)
}

/// What trying the edges of a graph leaves, in whatever order they come: a
/// forest of edges of the graph that connects the ends of every edge tried,
/// with one edge less than nodes for each of its trees.
pub proof fn lemma_grown(adj: Seq<Seq<usize>>, list: Seq<EdgeCandidate>)
    requires
        simple(adj),
        taken_from(list, adj),
    ensures
        simple(grown(empty_rows(adj.len()), list)),
        grown(empty_rows(adj.len()), list).len() == adj.len(),
        !cyclic(grown(empty_rows(adj.len()), list)),
        forall|u: usize, v: usize| #[trigger]
            adjacent(grown(empty_rows(adj.len()), list), u, v) ==> adjacent(adj, u, v),
        forall|k: int|
            0 <= k < list.len() ==> connected(
                grown(empty_rows(adj.len()), list),
                (#[trigger] list[k]).a,
                list[k].b,
            ),
        edge_count(grown(empty_rows(adj.len()), list)) + component_count(
            grown(empty_rows(adj.len()), list),
        ) == adj.len(),
    decreases list.len(),
{
    let n = adj.len();
    if list.len() == 0 {
        lemma_empty_rows_simple(n);
        lemma_empty_rows_acyclic(n);
        lemma_edges_upto_empty(n, n);
        lemma_empty_components(n, n);
    } else {
        let init = list.drop_last();
        let a = list.last().a;
        let b = list.last().b;
        let before = grown(empty_rows(n), init);
        let after = grown(empty_rows(n), list);
        assert(taken_from(init, adj)) by {
            assert forall|k: int| 0 <= k < init.len() implies adjacent(
                adj,
                (#[trigger] init[k]).a,
                init[k].b,
            ) by {
                assert(init[k] == list[k]);
            }
        }
        lemma_grown(adj, init);
        assert(adjacent(adj, list[list.len() - 1].a, list[list.len() - 1].b));
        assert(adjacent(adj, b, a));
        assert(a < n && b < n) by {
            let k = choose|k: int| 0 <= k < adj[a as int].len() && adj[a as int][k] == b;
            assert(adj[a as int][k] < adj.len());
        }
        assert(a != b);
        lemma_tried(before, a, b);
        let joined = after_add(before, a, b);
        lemma_after_add_simple(before, a, b);
        if adjacent(before, a, b) {
            assert(adjacent(before, b, a));
            assert(after == before);
            lemma_adjacent_connected(before, a, b);
        } else {
            assert(!adjacent(before, b, a));
            assert(joined == with_edge(before, a, b));
            lemma_with_edge(before, a, b);
            assert(extends_by(before, joined, a, b));
            lemma_cyclic_extended(before, joined, a, b);
            if cyclic(joined) {
                lemma_remove_undoes_add(before, a, b);
                assert(after == before);
            } else {
                assert(after == joined);
                lemma_edge_count_with_edge(before, a, b);
                lemma_components_after_join(before, joined, a, b);
                lemma_adjacent_connected(joined, a, b);
                assert forall|k: int| 0 <= k < init.len() implies connected(
                    after,
                    (#[trigger] list[k]).a,
                    list[k].b,
                ) by {
                    assert(init[k] == list[k]);
                    lemma_connected_mono(before, after, init[k].a, init[k].b);
                }
            }
        }
        assert forall|k: int| 0 <= k < list.len() implies connected(
            after,
            (#[trigger] list[k]).a,
            list[k].b,
        ) by {
            if k < init.len() {
                assert(init[k] == list[k]);
            }
        }
    }
}

/// The spanning tree has one edge less than nodes for every component of
/// the graph, whichever the order of trial: as many edges as there are
/// nodes, less the number of components. It is a forest of edges of the
/// graph, and it connects exactly the nodes that the graph connects.
pub proof fn lemma_spanning_rows(nodes: Seq<Node>, adj: Seq<Seq<usize>>, descending: bool)
    requires
        simple(adj),
        nodes.len() == adj.len(),
    ensures
        simple(spanning_rows(nodes, adj, descending)),
        spanning_rows(nodes, adj, descending).len() == adj.len(),
        !cyclic(spanning_rows(nodes, adj, descending)),
        forall|u: usize, v: usize| #[trigger]
            adjacent(spanning_rows(nodes, adj, descending), u, v) ==> adjacent(adj, u, v),
        forall|u: usize, v: usize|
            connected(spanning_rows(nodes, adj, descending), u, v) <==> connected(adj, u, v),
        edge_count(spanning_rows(nodes, adj, descending)) + component_count(adj) == adj.len(),
{
    let unsorted = candidates(nodes, adj);
    let list = ordered(unsorted, descending);
    let m = adj.len();
    let tree = grown(empty_rows(m), list);
    lemma_ordered(unsorted, descending);
    lemma_edges(adj);
    assert(taken_from(list, adj)) by {
        assert forall|k: int| 0 <= k < list.len() implies adjacent(
            adj,
            (#[trigger] list[k]).a,
            list[k].b,
        ) by {
            assert(list.contains(list[k]));
            assert(unsorted.contains(list[k]));
            let i = choose|i: int| 0 <= i < unsorted.len() && unsorted[i] == list[k];
            assert(unsorted[i] == weigh(nodes, edges(adj)[i]));
            assert(edges(adj).contains(edges(adj)[i]));
        }
    }
    lemma_grown(adj, list);
    {
        assert forall|u: usize, v: usize| connected(tree, u, v) <==> connected(adj, u, v) by {
            if connected(tree, u, v) {
                lemma_connected_mono(tree, adj, u, v);
            }
            if connected(adj, u, v) {
                let reached = |x: usize| connected(tree, u, x);
                lemma_connected_in_range(adj, u, v);
                lemma_connected_self(tree, u);
                assert forall|x: usize, y: usize| reached(x) && #[trigger] adjacent(
                    adj,
                    x,
                    y,
                ) implies reached(y) by {
                    assert(adjacent(adj, y, x));
                    assert(x != y);
                    let edge = if x < y {
                        Vertex { node_id1: x, node_id2: y }
                    } else {
                        Vertex { node_id1: y, node_id2: x }
                    };
                    assert(edges(adj).contains(edge));
                    let i = choose|i: int| 0 <= i < edges(adj).len() && edges(adj)[i] == edge;
                    assert(unsorted[i] == weigh(nodes, edge));
                    assert(unsorted.contains(weigh(nodes, edge)));
                    assert(list.contains(weigh(nodes, edge)));
                    let k = choose|k: int| 0 <= k < list.len() && list[k] == weigh(nodes, edge);
                    assert(connected(tree, list[k].a, list[k].b));
                    if y < x {
                        lemma_connected_sym(tree, y, x);
                    }
                    lemma_connected_trans(tree, u, x, y);
                }
                lemma_connected_induct(adj, u, v, reached);
            }
        }
        lemma_same_components(tree, adj, m);
    }
}

impl Graph {
    /// One candidate for every edge, weighted by the square of the distance
    /// between its ends.
    pub fn candidates(&self) -> (list: Vec<EdgeCandidate>)
        requires
            self@.valid(),
        ensures
            list@ == candidates(self@.nodes, self@.adjacencies),
    {
        let edge_list = self.vertices();
        let nodes = self.nodes();
        let mut list: Vec<EdgeCandidate> = Vec::new();
        let mut i: usize = 0;
        proof {
            lemma_edges(self@.adjacencies);
        }
        while i < edge_list.len()
            invariant
                i <= edge_list.len(),
                nodes@ == self@.nodes,
                self@.nodes.len() == self@.adjacencies.len(),
                edge_list@ == edges(self@.adjacencies),
                forall|k: int|
                    0 <= k < edge_list.len() ==> (#[trigger] edge_list@[k]).node_id1
                        < edge_list@[k].node_id2 < self@.adjacencies.len(),
                list.len() == i,
                forall|k: int| 0 <= k < i ==> #[trigger] list@[k] == weigh(nodes@, edge_list@[k]),
            decreases edge_list.len() - i,
        {
            let a = edge_list[i].node_id1();
            let b = edge_list[i].node_id2();
            let weight = nodes[a].pos().distance_sq(nodes[b].pos());
            list.push(EdgeCandidate { a, b, weight });
            i += 1;
        }
        proof {
            assert(list@ =~= candidates(self@.nodes, self@.adjacencies));
        }
        list
    }

    /// The spanning tree of the graph: a graph on copies of the nodes whose
    /// edges are those candidates that joined two parts of the tree when
    /// they were tried. The candidates are tried from the lightest on, or
    /// from the heaviest on if `prefer_maximum_weight` is set.
    ///
    /// The tree of a simple graph is a forest of edges of the graph that
    /// connects what the graph connects, so it has as many edges as there
    /// are nodes, less the number of components. It is a lightest such
    /// forest, or a heaviest if `prefer_maximum_weight` is set: up to any
    /// weight (from any weight on) it holds as many edges as any forest of
    /// edges of the graph.
    pub fn covering_tree(&self, prefer_maximum_weight: bool) -> (tree: Graph)
        requires
            self@.valid(),
        ensures
            tree@ == self@.without_edges().with_rows(
                spanning_rows(self@.nodes, self@.adjacencies, prefer_maximum_weight),
            ),
            tree@.valid(),
            tree@.is_simple(),
            !cyclic(tree@.adjacencies),
            is_forest(tree@.adjacencies),
            self@.is_simple() ==> {
                &&& forall|u: usize, v: usize| #[trigger]
                    adjacent(tree@.adjacencies, u, v) ==> adjacent(self@.adjacencies, u, v)
                &&& forall|u: usize, v: usize|
                    connected(tree@.adjacencies, u, v) <==> connected(self@.adjacencies, u, v)
                &&& edge_count(tree@.adjacencies) + component_count(self@.adjacencies)
                    == self@.nodes.len()
                &&& forall|forest: Seq<Seq<usize>>, limit: u128|
                    forest_within(forest, self@.adjacencies) ==> #[trigger] count_within(
                        self@.nodes,
                        forest,
                        limit,
                        prefer_maximum_weight,
                    ) <= count_within(
                        self@.nodes,
                        tree@.adjacencies,
                        limit,
                        prefer_maximum_weight,
                    )
            },
    {
        let mut graph = self.graph_without_edges();
        let list = sort_candidates(self.candidates(), prefer_maximum_weight);
        let ghost base = self@.without_edges();
        let ghost n = self@.nodes.len();
        let ghost unsorted = candidates(self@.nodes, self@.adjacencies);
        proof {
            lemma_empty_rows_acyclic(n);
            lemma_ordered(unsorted, prefer_maximum_weight);
            lemma_edges(self@.adjacencies);
            assert forall|k: int| 0 <= k < list.len() implies (#[trigger] list@[k]).a < n && list@[k].b
                < n by {
                assert(list@.contains(list@[k]));
                assert(unsorted.contains(list@[k]));
                let i = choose|i: int| 0 <= i < unsorted.len() && unsorted[i] == list@[k];
                assert(unsorted[i] == weigh(self@.nodes, edges(self@.adjacencies)[i]));
            }
            assert(list@.take(0) =~= Seq::<EdgeCandidate>::empty());
        }
        let mut i: usize = 0;
        while i < list.len()
            invariant
                i <= list.len(),
                n == base.nodes.len(),
                forall|k: int| 0 <= k < list.len() ==> (#[trigger] list@[k]).a < n && list@[k].b < n,
                graph@ == base.with_rows(grown(empty_rows(n), list@.take(i as int))),
                graph@.valid(),
                graph@.is_simple(),
                !cyclic(graph@.adjacencies),
            decreases list.len() - i,
        {
            let a = list[i].a;
            let b = list[i].b;
            proof {
                assert(list@.take(i + 1).drop_last() =~= list@.take(i as int));
                lemma_tried(graph@.adjacencies, a, b);
            }
            graph.add_edge(a, b);
            if graph.has_cycle() {
                graph.rm_edge(a, b);
            }
            i += 1;
        }
        proof {
            assert(list@.take(i as int) =~= list@);
            if self@.is_simple() {
                lemma_spanning_rows(self@.nodes, self@.adjacencies, prefer_maximum_weight);
                assert forall|forest: Seq<Seq<usize>>, limit: u128|
                    forest_within(forest, self@.adjacencies) implies #[trigger] count_within(
                    self@.nodes,
                    forest,
                    limit,
                    prefer_maximum_weight,
                ) <= count_within(
                    self@.nodes,
                    graph@.adjacencies,
                    limit,
                    prefer_maximum_weight,
                ) by {
                    lemma_spanning_rows_lightest(
                        self@.nodes,
                        self@.adjacencies,
                        prefer_maximum_weight,
                        forest,
                        limit,
                    );
                }
            }
            lemma_cyclic_iff_not_forest(graph@.adjacencies);
        }
        graph
    }
}

} // verus!
