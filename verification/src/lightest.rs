//! Why the spanning tree is a lightest one.
//!
//! Among the edges up to any weight the tree holds as many as a forest in
//! the graph can hold. So its lightest edge is no heavier than the lightest
//! of any other spanning forest, its second lightest no heavier than the
//! other's second lightest, and so on: no spanning forest is shorter in
//! total, whether lengths are summed or their squares. With the order of
//! trial descending the same holds of the edges from any weight on, and no
//! spanning forest is longer.

use vstd::prelude::*;
use crate::adjacency::{
    adjacent, after_remove, edge_count, edges, edges_upto, empty_rows, in_range, lemma_after_add,
    lemma_after_add_simple, lemma_after_remove, lemma_after_remove_simple,
    lemma_edge_count_with_edge, lemma_edges, lemma_edges_upto, lemma_edges_upto_empty,
    lemma_empty_rows_simple, lemma_row_edges, lemma_with_edge, no_parallel, row_edges, simple,
    with_edge,
};
use crate::connectivity::{
    connected, extends_by, lemma_connected_in_range, lemma_connected_induct, lemma_connected_mono,
    lemma_connected_self, lemma_connected_sym, lemma_connected_trans, roots_upto,
};
use crate::cycle::cyclic;
use crate::forest::{
    is_forest, lemma_cyclic_extended, lemma_cyclic_iff_not_forest, lemma_tree_edge_joins,
};
use crate::node::Node;
use crate::tree::{
    candidates, goes_after, grown, in_order, lemma_grown, lemma_ordered, lemma_tried, ordered,
    spanning_rows, taken_from, tried, weigh, EdgeCandidate,
};
use crate::vertex::Vertex;

verus! {

/// Whether the candidate is within the limit: no heavier than `limit`, or
/// no lighter if the order of trial is descending.
pub open spec fn within(e: EdgeCandidate, limit: u128, descending: bool) -> bool {
    if descending {
        e.weight >= limit
    } else {
        e.weight <= limit
    }
}

/// The candidates of `list` within the limit, in order.
pub open spec fn sieved(list: Seq<EdgeCandidate>, limit: u128, descending: bool) -> Seq<EdgeCandidate>
    decreases list.len(),
{
    if list.len() == 0 {
        list
    } else if within(list.last(), limit, descending) {
        sieved(list.drop_last(), limit, descending).push(list.last())
    } else {
        sieved(list.drop_last(), limit, descending)
    }
}

/// How many edges of the graph are within the limit.
pub open spec fn count_within(nodes: Seq<Node>, adj: Seq<Seq<usize>>, limit: u128, descending: bool) -> nat {
    sieved(candidates(nodes, adj), limit, descending).len()
}

/// Whether the candidate joins `u` and `v`.
pub open spec fn joins(e: EdgeCandidate, u: usize, v: usize) -> bool {
    (e.a == u && e.b == v) || (e.a == v && e.b == u)
}

/// Whether no two candidates of `list` join the same nodes.
pub open spec fn distinct_edges(list: Seq<EdgeCandidate>) -> bool {
    forall|i: int, j: int|
        0 <= i < j < list.len() ==> !joins(#[trigger] list[i], (#[trigger] list[j]).a, list[j].b)
}

/// What `sieved` keeps: the candidates within the limit.
pub proof fn lemma_sieved(list: Seq<EdgeCandidate>, limit: u128, descending: bool)
    ensures
        forall|e: EdgeCandidate|
            #![trigger sieved(list, limit, descending).contains(e)]
            #![trigger list.contains(e)]
            sieved(list, limit, descending).contains(e) <==> (list.contains(e) && within(
                e,
                limit,
                descending,
            )),
        distinct_edges(list) ==> distinct_edges(sieved(list, limit, descending)),
        sieved(list, limit, descending).len() <= list.len(),
    decreases list.len(),
{
    if list.len() > 0 {
        let init = list.drop_last();
        let last = list.last();
        let kept = sieved(init, limit, descending);
        let all = sieved(list, limit, descending);
        lemma_sieved(init, limit, descending);
        assert(all == if within(last, limit, descending) {
            kept.push(last)
        } else {
            kept
        });
        assert forall|e: EdgeCandidate|
            #![trigger all.contains(e)]
            #![trigger list.contains(e)]
            all.contains(e) <==> (list.contains(e) && within(e, limit, descending)) by {
            if all.contains(e) {
                let j = choose|j: int| 0 <= j < all.len() && all[j] == e;
                if j < kept.len() {
                    assert(kept[j] == e);
                    assert(kept.contains(e));
                    let i = choose|i: int| 0 <= i < init.len() && init[i] == e;
                    assert(list[i] == e);
                } else {
                    assert(list[list.len() - 1] == e);
                }
            }
            if list.contains(e) && within(e, limit, descending) {
                let i = choose|i: int| 0 <= i < list.len() && list[i] == e;
                if i < init.len() {
                    assert(init[i] == e);
                    assert(init.contains(e));
                    assert(kept.contains(e));
                    let j = choose|j: int| 0 <= j < kept.len() && kept[j] == e;
                    assert(all[j] == e);
                } else {
                    assert(all[all.len() - 1] == e);
                }
            }
        }
        if distinct_edges(list) {
            assert(distinct_edges(init)) by {
                assert forall|i: int, j: int| 0 <= i < j < init.len() implies !joins(
                    #[trigger] init[i],
                    (#[trigger] init[j]).a,
                    init[j].b,
                ) by {
                    assert(init[i] == list[i] && init[j] == list[j]);
                }
            }
            assert forall|i: int, j: int| 0 <= i < j < all.len() implies !joins(
                #[trigger] all[i],
                (#[trigger] all[j]).a,
                all[j].b,
            ) by {
                if j < kept.len() {
                    assert(all[i] == kept[i] && all[j] == kept[j]);
                } else {
                    assert(all[j] == last);
                    assert(all[i] == kept[i]);
                    assert(kept.contains(kept[i]));
                    let k = choose|k: int| 0 <= k < init.len() && init[k] == kept[i];
                    assert(list[k] == kept[i]);
                    assert(!joins(list[k], list[list.len() - 1].a, list[list.len() - 1].b));
                }
            }
        }
    }
}

/// No edge is listed twice among `edges`.
pub proof fn lemma_edges_distinct(adj: Seq<Seq<usize>>, k: nat)
    requires
        in_range(adj),
        no_parallel(adj),
        k <= adj.len(),
    ensures
        edges_upto(adj, k).no_duplicates(),
    decreases k,
{
    if k > 0 {
        let a = (k - 1) as usize;
        let before = edges_upto(adj, (k - 1) as nat);
        let row = row_edges(a, adj[k - 1]);
        lemma_edges_distinct(adj, (k - 1) as nat);
        lemma_edges_upto(adj, (k - 1) as nat);
        lemma_row_edges(a, adj[k - 1]);
        lemma_row_edges_distinct(a, adj[k - 1]);
        let all = before + row;
        assert forall|i: int, j: int| 0 <= i < j < all.len() implies all[i] != all[j] by {
            if j < before.len() {
                assert(before[i] != before[j]);
            } else if i >= before.len() {
                assert(row[i - before.len()] != row[j - before.len()]);
            } else {
                assert(before.contains(before[i]));
                assert(row.contains(row[j - before.len()]));
            }
        }
    }
}

/// No edge is listed twice in a row that lists no node twice.
pub proof fn lemma_row_edges_distinct(a: usize, row: Seq<usize>)
    requires
        row.no_duplicates(),
    ensures
        row_edges(a, row).no_duplicates(),
    decreases row.len(),
{
    if row.len() > 0 {
        let init = row.drop_last();
        let rest = row_edges(a, init);
        let all = row_edges(a, row);
        lemma_row_edges_distinct(a, init);
        lemma_row_edges(a, init);
        assert forall|i: int, j: int| 0 <= i < j < all.len() implies all[i] != all[j] by {
            if j < rest.len() {
                assert(rest[i] != rest[j]);
            } else {
                assert(rest.contains(rest[i]));
                assert(init.contains(rest[i].node_id2));
                let k = choose|k: int| 0 <= k < init.len() && init[k] == rest[i].node_id2;
                assert(row[k] != row[row.len() - 1]);
            }
        }
    }
}

/// No two candidates of a graph without parallel edges join the same nodes.
pub proof fn lemma_candidates_distinct(nodes: Seq<Node>, adj: Seq<Seq<usize>>)
    requires
        in_range(adj),
        no_parallel(adj),
    ensures
        distinct_edges(candidates(nodes, adj)),
{
    let list = candidates(nodes, adj);
    lemma_edges_distinct(adj, adj.len());
    lemma_edges(adj);
    assert forall|i: int, j: int| 0 <= i < j < list.len() implies !joins(
        #[trigger] list[i],
        (#[trigger] list[j]).a,
        list[j].b,
    ) by {
        assert(edges(adj)[i] != edges(adj)[j]);
        assert(edges(adj)[i].node_id1 < edges(adj)[i].node_id2);
        assert(edges(adj)[j].node_id1 < edges(adj)[j].node_id2);
    }
}

/// Every edge of what trying leaves was tried.
pub proof fn lemma_grown_edges(adj: Seq<Seq<usize>>, list: Seq<EdgeCandidate>)
    requires
        simple(adj),
        taken_from(list, adj),
    ensures
        forall|u: usize, v: usize| #[trigger]
            adjacent(grown(empty_rows(adj.len()), list), u, v) ==> exists|i: int|
                0 <= i < list.len() && joins(#[trigger] list[i], u, v),
    decreases list.len(),
{
    let n = adj.len();
    if list.len() == 0 {
        lemma_empty_rows_simple(n);
    } else {
        let init = list.drop_last();
        let a = list.last().a;
        let b = list.last().b;
        let before = grown(empty_rows(n), init);
        let after = grown(empty_rows(n), list);
        lemma_init_taken_from(list, adj);
        lemma_grown(adj, init);
        lemma_grown_edges(adj, init);
        lemma_candidate_in_range(adj, list, list.len() - 1);
        lemma_tried(before, a, b);
        lemma_after_add(before, a, b);
        assert forall|u: usize, v: usize| #[trigger] adjacent(after, u, v) implies exists|i: int|
            0 <= i < list.len() && joins(#[trigger] list[i], u, v) by {
            if adjacent(before, u, v) {
                let i = choose|i: int| 0 <= i < init.len() && joins(#[trigger] init[i], u, v);
                assert(joins(list[i], u, v));
            } else {
                assert(joins(list[list.len() - 1], u, v));
            }
        }
    }
}

/// All but the last candidate of a list taken from a graph are taken from
/// it.
pub proof fn lemma_init_taken_from(list: Seq<EdgeCandidate>, adj: Seq<Seq<usize>>)
    requires
        taken_from(list, adj),
        list.len() > 0,
    ensures
        taken_from(list.drop_last(), adj),
{
    let init = list.drop_last();
    assert forall|k: int| 0 <= k < init.len() implies adjacent(adj, (#[trigger] init[k]).a, init[k].b) by {
        assert(init[k] == list[k]);
    }
}

/// A candidate taken from a simple graph joins two distinct nodes of it.
pub proof fn lemma_candidate_in_range(adj: Seq<Seq<usize>>, list: Seq<EdgeCandidate>, k: int)
    requires
        simple(adj),
        taken_from(list, adj),
        0 <= k < list.len(),
    ensures
        list[k].a < adj.len(),
        list[k].b < adj.len(),
        list[k].a != list[k].b,
        adjacent(adj, list[k].a, list[k].b),
        adjacent(adj, list[k].b, list[k].a),
{
    let a = list[k].a;
    let b = list[k].b;
    assert(adjacent(adj, a, b));
    assert(adjacent(adj, b, a));
    assert(!adjacent(adj, a, a));
}

/// What trying the first candidates leaves stays when the others are
/// tried.
pub proof fn lemma_grown_prefix(adj: Seq<Seq<usize>>, list: Seq<EdgeCandidate>, k: int)
    requires
        simple(adj),
        taken_from(list, adj),
        0 <= k <= list.len(),
    ensures
        taken_from(list.take(k), adj),
        forall|u: usize, v: usize| #[trigger]
            adjacent(grown(empty_rows(adj.len()), list.take(k)), u, v) ==> adjacent(
                grown(empty_rows(adj.len()), list),
                u,
                v,
            ),
    decreases list.len(),
{
    let n = adj.len();
    if k == list.len() {
        assert(list.take(k) =~= list);
    } else {
        let init = list.drop_last();
        let a = list.last().a;
        let b = list.last().b;
        lemma_init_taken_from(list, adj);
        lemma_grown_prefix(adj, init, k);
        assert(init.take(k) =~= list.take(k));
        let before = grown(empty_rows(n), init);
        lemma_grown(adj, init);
        lemma_candidate_in_range(adj, list, list.len() - 1);
        lemma_tried(before, a, b);
        lemma_after_add(before, a, b);
    }
}

/// Trying distinct edges of a forest keeps every one of them.
pub proof fn lemma_forest_keeps_all(forest: Seq<Seq<usize>>, list: Seq<EdgeCandidate>)
    requires
        simple(forest),
        !cyclic(forest),
        taken_from(list, forest),
        distinct_edges(list),
    ensures
        edge_count(grown(empty_rows(forest.len()), list)) == list.len(),
    decreases list.len(),
{
    let n = forest.len();
    if list.len() == 0 {
        lemma_edges_upto_empty(n, n);
    } else {
        let init = list.drop_last();
        let a = list.last().a;
        let b = list.last().b;
        let before = grown(empty_rows(n), init);
        lemma_init_taken_from(list, forest);
        assert(distinct_edges(init)) by {
            assert forall|i: int, j: int| 0 <= i < j < init.len() implies !joins(
                #[trigger] init[i],
                (#[trigger] init[j]).a,
                init[j].b,
            ) by {
                assert(init[i] == list[i] && init[j] == list[j]);
            }
        }
        lemma_forest_keeps_all(forest, init);
        lemma_grown(forest, init);
        lemma_grown_edges(forest, init);
        lemma_candidate_in_range(forest, list, list.len() - 1);
        assert(!adjacent(before, a, b)) by {
            if adjacent(before, a, b) {
                let i = choose|i: int| 0 <= i < init.len() && joins(#[trigger] init[i], a, b);
                assert(init[i] == list[i]);
                assert(!joins(list[i], list[list.len() - 1].a, list[list.len() - 1].b));
            }
        }
        assert(!adjacent(before, b, a)) by {
            if adjacent(before, b, a) {
                assert(adjacent(before, a, b));
            }
        }
        let joined = with_edge(before, a, b);
        lemma_with_edge(before, a, b);
        lemma_after_add_simple(before, a, b);
        assert(extends_by(before, joined, a, b));
        // without the edge its ends are apart in the forest, and the more so
        // in what has been kept so far
        let rest = after_remove(forest, a, b);
        lemma_after_remove(forest, a, b);
        lemma_after_remove_simple(forest, a, b);
        assert(extends_by(rest, forest, a, b));
        lemma_cyclic_iff_not_forest(forest);
        lemma_tree_edge_joins(rest, forest, a, b);
        assert forall|u: usize, v: usize| #[trigger] adjacent(before, u, v) implies adjacent(
            rest,
            u,
            v,
        ) by {
            assert(adjacent(forest, u, v));
        }
        if connected(before, a, b) {
            lemma_connected_mono(before, rest, a, b);
        }
        lemma_cyclic_extended(before, joined, a, b);
        assert(tried(before, a, b) == joined);
        lemma_edge_count_with_edge(before, a, b);
    }
}

/// In a list that is in order the candidates within a limit come first.
pub proof fn lemma_sieved_prefix(list: Seq<EdgeCandidate>, limit: u128, descending: bool) -> (k: int)
    requires
        in_order(list, descending),
    ensures
        0 <= k <= list.len(),
        sieved(list, limit, descending) == list.take(k),
    decreases list.len(),
{
    if list.len() == 0 {
        assert(list.take(0) =~= list);
        0
    } else {
        let init = list.drop_last();
        let last = list.last();
        assert(in_order(init, descending)) by {
            assert forall|i: int, j: int| 0 <= i < j < init.len() implies !goes_after(
                #[trigger] init[i],
                #[trigger] init[j],
                descending,
            ) by {
                assert(init[i] == list[i] && init[j] == list[j]);
            }
        }
        let k0 = lemma_sieved_prefix(init, limit, descending);
        lemma_sieved(init, limit, descending);
        if within(last, limit, descending) {
            if k0 < init.len() {
                // the candidate at `k0` does not come after the last one, so
                // it is within the limit as well as those before it: the
                // sieve would be longer than it is
                assert(list[k0] == init[k0]);
                assert(!goes_after(list[k0], list[list.len() - 1], descending));
                assert forall|i: int| 0 <= i < k0 + 1 implies within(
                    #[trigger] init[i],
                    limit,
                    descending,
                ) by {
                    if i < k0 {
                        assert(init.take(k0)[i] == init[i]);
                        assert(sieved(init, limit, descending).contains(init[i]));
                    }
                }
                lemma_sieved_whole(init, limit, descending, k0 + 1);
            }
            assert(init.take(k0) =~= init);
            assert(init.push(last) =~= list);
            assert(list.take(list.len() as int) =~= list);
            list.len() as int
        } else {
            assert(init.take(k0) =~= list.take(k0));
            k0
        }
    }
}

/// The sieve of a list whose first `k` candidates are within the limit
/// holds `k` candidates at least.
proof fn lemma_sieved_whole(list: Seq<EdgeCandidate>, limit: u128, descending: bool, k: int)
    requires
        0 <= k <= list.len(),
        forall|i: int| 0 <= i < k ==> within(#[trigger] list[i], limit, descending),
    ensures
        sieved(list, limit, descending).len() >= k,
    decreases list.len(),
{
    if list.len() > 0 {
        let init = list.drop_last();
        if k == list.len() {
            assert(within(list[list.len() - 1], limit, descending));
            assert forall|i: int| 0 <= i < k - 1 implies within(
                #[trigger] init[i],
                limit,
                descending,
            ) by {
                assert(init[i] == list[i]);
            }
            lemma_sieved_whole(init, limit, descending, k - 1);
        } else {
            assert forall|i: int| 0 <= i < k implies within(#[trigger] init[i], limit, descending) by {
                assert(init[i] == list[i]);
            }
            lemma_sieved_whole(init, limit, descending, k);
        }
    }
}

/// A list of edges without a repetition, each of which has its candidate
/// in another list, is no longer than that list.
pub proof fn lemma_edges_fit(nodes: Seq<Node>, one: Seq<Vertex>, other: Seq<EdgeCandidate>)
    requires
        one.no_duplicates(),
        forall|i: int| 0 <= i < one.len() ==> other.contains(weigh(nodes, #[trigger] one[i])),
    ensures
        one.len() <= other.len(),
    decreases one.len(),
{
    if one.len() > 0 {
        let init = one.drop_last();
        let last = one.last();
        let c = weigh(nodes, last);
        assert(other.contains(weigh(nodes, one[one.len() - 1])));
        let at = choose|at: int| 0 <= at < other.len() && other[at] == c;
        let fewer = other.remove(at);
        assert forall|i: int| 0 <= i < init.len() implies fewer.contains(
            weigh(nodes, #[trigger] init[i]),
        ) by {
            let e = weigh(nodes, init[i]);
            assert(init[i] == one[i]);
            assert(one[i] != one[one.len() - 1]);
            assert(other.contains(weigh(nodes, one[i])));
            let j = choose|j: int| 0 <= j < other.len() && other[j] == e;
            assert(e != c);
            if j < at {
                assert(fewer[j] == e);
            } else {
                assert(fewer[j - 1] == e);
            }
        }
        lemma_edges_fit(nodes, init, fewer);
    }
}

/// A graph that connects less has no fewer components.
pub proof fn lemma_finer_components(fine: Seq<Seq<usize>>, coarse: Seq<Seq<usize>>, k: nat)
    requires
        fine.len() == coarse.len(),
        forall|u: usize, v: usize| #[trigger] connected(fine, u, v) ==> connected(coarse, u, v),
    ensures
        roots_upto(coarse, k) <= roots_upto(fine, k),
    decreases k,
{
    if k > 0 {
        lemma_finer_components(fine, coarse, (k - 1) as nat);
    }
}

/// Whether `forest` is a forest of edges of the graph `adj`.
pub open spec fn forest_within(forest: Seq<Seq<usize>>, adj: Seq<Seq<usize>>) -> bool {
    &&& simple(forest)
    &&& forest.len() == adj.len()
    &&& is_forest(forest)
    &&& forall|u: usize, v: usize| #[trigger] adjacent(forest, u, v) ==> adjacent(adj, u, v)
}

/// Among the edges within any limit the spanning tree holds as many as any
/// forest of edges of the graph.
pub proof fn lemma_spanning_rows_lightest(
    nodes: Seq<Node>,
    adj: Seq<Seq<usize>>,
    descending: bool,
    forest: Seq<Seq<usize>>,
    limit: u128,
)
    requires
        simple(adj),
        nodes.len() == adj.len(),
        forest_within(forest, adj),
    ensures
        count_within(nodes, forest, limit, descending) <= count_within(
            nodes,
            spanning_rows(nodes, adj, descending),
            limit,
            descending,
        ),
{
    let n = adj.len();
    lemma_cyclic_iff_not_forest(forest);
    lemma_edges(adj);
    // what the forest holds within the limit, tried on its own
    let forest_all = candidates(nodes, forest);
    let forest_list = sieved(forest_all, limit, descending);
    lemma_candidates_distinct(nodes, forest);
    lemma_sieved(forest_all, limit, descending);
    lemma_edges(forest);
    assert(taken_from(forest_list, forest)) by {
        assert forall|i: int| 0 <= i < forest_list.len() implies adjacent(
            forest,
            (#[trigger] forest_list[i]).a,
            forest_list[i].b,
        ) by {
            let e = forest_list[i];
            assert(forest_list.contains(e));
            assert(forest_all.contains(e));
            let j = choose|j: int| 0 <= j < forest_all.len() && forest_all[j] == e;
            assert(edges(forest).contains(edges(forest)[j]));
        }
    }
    let kept = grown(empty_rows(n), forest_list);
    lemma_forest_keeps_all(forest, forest_list);
    lemma_grown(forest, forest_list);
    lemma_grown_edges(forest, forest_list);
    // what the graph holds within the limit is tried first
    let unsorted = candidates(nodes, adj);
    let list = ordered(unsorted, descending);
    lemma_ordered(unsorted, descending);
    assert(taken_from(list, adj)) by {
        assert forall|i: int| 0 <= i < list.len() implies adjacent(
            adj,
            (#[trigger] list[i]).a,
            list[i].b,
        ) by {
            assert(list.contains(list[i]));
            assert(unsorted.contains(list[i]));
            let j = choose|j: int| 0 <= j < unsorted.len() && unsorted[j] == list[i];
            assert(edges(adj).contains(edges(adj)[j]));
        }
    }
    let k = lemma_sieved_prefix(list, limit, descending);
    lemma_sieved(list, limit, descending);
    let first = list.take(k);
    let early = grown(empty_rows(n), first);
    let tree = grown(empty_rows(n), list);
    lemma_grown_prefix(adj, list, k);
    lemma_grown(adj, first);
    lemma_grown_edges(adj, first);
    lemma_grown(adj, list);
    // the early tree connects whatever the forest connects within the limit
    assert forall|u: usize, v: usize| #[trigger] connected(kept, u, v) implies connected(
        early,
        u,
        v,
    ) by {
        let reached = |x: usize| connected(early, u, x);
        lemma_connected_in_range(kept, u, v);
        lemma_connected_self(early, u);
        assert forall|x: usize, y: usize| reached(x) && #[trigger] adjacent(kept, x, y) implies reached(
            y,
        ) by {
            let i = choose|i: int| 0 <= i < forest_list.len() && joins(#[trigger] forest_list[i], x, y);
            let e = forest_list[i];
            assert(forest_list.contains(e));
            assert(forest_all.contains(e));
            let j = choose|j: int| 0 <= j < forest_all.len() && forest_all[j] == e;
            let edge = edges(forest)[j];
            assert(edges(forest).contains(edge));
            assert(adjacent(adj, edge.node_id1, edge.node_id2));
            assert(edges(adj).contains(edge));
            let m = choose|m: int| 0 <= m < edges(adj).len() && edges(adj)[m] == edge;
            assert(unsorted[m] == e);
            assert(unsorted.contains(e));
            assert(list.contains(e));
            assert(first.contains(e));
            let h = choose|h: int| 0 <= h < first.len() && first[h] == e;
            assert(connected(early, first[h].a, first[h].b));
            if e.a != x {
                lemma_connected_sym(early, e.a, e.b);
            }
            lemma_connected_trans(early, u, x, y);
        }
        lemma_connected_induct(kept, u, v, reached);
    }
    lemma_finer_components(kept, early, n);
    // every edge of the early tree is an edge of the tree within the limit
    let tree_all = candidates(nodes, tree);
    let tree_list = sieved(tree_all, limit, descending);
    lemma_edges(early);
    lemma_edges(tree);
    lemma_sieved(tree_all, limit, descending);
    lemma_edges_distinct(early, n);
    assert forall|i: int| 0 <= i < edges(early).len() implies tree_list.contains(
        weigh(nodes, #[trigger] edges(early)[i]),
    ) by {
        let edge = edges(early)[i];
        assert(edges(early).contains(edge));
        assert(adjacent(early, edge.node_id1, edge.node_id2));
        assert(adjacent(tree, edge.node_id1, edge.node_id2));
        assert(edges(tree).contains(edge));
        let m = choose|m: int| 0 <= m < edges(tree).len() && edges(tree)[m] == edge;
        assert(tree_all[m] == weigh(nodes, edge));
        assert(tree_all.contains(weigh(nodes, edge)));
        let h = choose|h: int|
            0 <= h < first.len() && joins(#[trigger] first[h], edge.node_id1, edge.node_id2);
        let e = first[h];
        assert(first.contains(e));
        assert(list.contains(e));
        assert(unsorted.contains(e));
        let j = choose|j: int| 0 <= j < unsorted.len() && unsorted[j] == e;
        assert(edges(adj)[j].node_id1 < edges(adj)[j].node_id2);
        assert(e == weigh(nodes, edge));
    }
    lemma_edges_fit(nodes, edges(early), tree_list);
}

} // verus!
