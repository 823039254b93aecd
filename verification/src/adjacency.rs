//! Adjacency lists and the operations that add and remove an edge.
//!
//! A graph on the nodes `0..n` is a sequence of `n` rows; row `a` lists the
//! neighbours of `a`. Everything here is stated over the rows as sequences,
//! `rows(v@)` for a vector `v`.

use vstd::prelude::*;
use crate::vertex::Vertex;

verus! {

/// The rows of a vector of adjacency lists.
pub open spec fn rows(adj: Seq<Vec<usize>>) -> Seq<Seq<usize>> {
    Seq::new(adj.len(), |i: int| adj[i]@)
}

/// `n` rows without an entry.
pub open spec fn empty_rows(n: nat) -> Seq<Seq<usize>> {
    Seq::new(n, |i: int| Seq::<usize>::empty())
}

/// Whether row `a` exists and lists `b`.
pub open spec fn adjacent(adj: Seq<Seq<usize>>, a: usize, b: usize) -> bool {
    a < adj.len() && adj[a as int].contains(b)
}

/// Every entry names a node, and every node has a number.
pub open spec fn in_range(adj: Seq<Seq<usize>>) -> bool {
    &&& adj.len() <= usize::MAX
    &&& forall|a: int, k: int|
        0 <= a < adj.len() && 0 <= k < adj[a].len() ==> (#[trigger] adj[a][k]) < adj.len()
}

/// Symmetry: `b` is listed for `a` exactly if `a` is listed for `b`.
pub open spec fn symmetric(adj: Seq<Seq<usize>>) -> bool {
    forall|a: usize, b: usize| #[trigger] adjacent(adj, a, b) ==> adjacent(adj, b, a)
}

/// No node is its own neighbour.
pub open spec fn loop_free(adj: Seq<Seq<usize>>) -> bool {
    forall|a: usize| !#[trigger] adjacent(adj, a, a)
}

/// No row lists a neighbour twice.
pub open spec fn no_parallel(adj: Seq<Seq<usize>>) -> bool {
    forall|a: int| 0 <= a < adj.len() ==> (#[trigger] adj[a]).no_duplicates()
}

/// The rows describe a simple undirected graph.
pub open spec fn simple(adj: Seq<Seq<usize>>) -> bool {
    &&& in_range(adj)
    &&& symmetric(adj)
    &&& loop_free(adj)
    &&& no_parallel(adj)
}

/// `row` with every occurrence of `x` taken out, the rest in order.
pub open spec fn without(row: Seq<usize>, x: usize) -> Seq<usize> {
    row.filter(|y: usize| y != x)
}

/// The rows with `b` appended to row `a` and `a` appended to row `b`.
pub open spec fn with_edge(adj: Seq<Seq<usize>>, a: usize, b: usize) -> Seq<Seq<usize>> {
    let first = adj.update(a as int, adj[a as int].push(b));
    first.update(b as int, first[b as int].push(a))
}

/// What adding the edge `{a, b}` leaves: nothing changes if `a == b` or if
/// either row already lists the other node.
pub open spec fn after_add(adj: Seq<Seq<usize>>, a: usize, b: usize) -> Seq<Seq<usize>> {
    if a != b && !adjacent(adj, a, b) && !adjacent(adj, b, a) {
        with_edge(adj, a, b)
    } else {
        adj
    }
}

/// What removing the edge `{a, b}` leaves: `b` is gone from row `a` and `a`
/// from row `b`.
pub open spec fn after_remove(adj: Seq<Seq<usize>>, a: usize, b: usize) -> Seq<Seq<usize>> {
    let first = adj.update(a as int, without(adj[a as int], b));
    first.update(b as int, without(first[b as int], a))
}

/// What toggling the edge `{a, b}` leaves: the edge is removed if both rows
/// list it and added otherwise.
pub open spec fn after_toggle(adj: Seq<Seq<usize>>, a: usize, b: usize) -> Seq<Seq<usize>> {
    if adjacent(adj, a, b) && adjacent(adj, b, a) {
        after_remove(adj, a, b)
    } else {
        after_add(adj, a, b)
    }
}

/// What `without` keeps: the members other than `x`, none of them more often
/// than before.
pub proof fn lemma_without(row: Seq<usize>, x: usize)
    ensures
        forall|y: usize| without(row, x).contains(y) <==> (row.contains(y) && y != x),
        row.no_duplicates() ==> without(row, x).no_duplicates(),
        !row.contains(x) ==> without(row, x) == row,
        without(row, x).len() <= row.len(),
    decreases row.len(),
{
    reveal(Seq::filter);
    if row.len() == 0 {
        assert(without(row, x) =~= row);
    } else {
        let init = row.drop_last();
        let last = row.last();
        lemma_without(init, x);
        let kept = without(init, x);
        let all = without(row, x);
        assert(row =~= init.push(last));
        assert(all == if last != x {
            kept.push(last)
        } else {
            kept
        });
        assert forall|y: usize| all.contains(y) <==> (row.contains(y) && y != x) by {
            if row.contains(y) && y != x {
                let i = choose|i: int| 0 <= i < row.len() && row[i] == y;
                if i < init.len() {
                    assert(init[i] == y);
                    assert(kept.contains(y));
                    let j = choose|j: int| 0 <= j < kept.len() && kept[j] == y;
                    assert(all[j] == y);
                } else {
                    assert(all[all.len() - 1] == y);
                }
            }
            if all.contains(y) {
                let j = choose|j: int| 0 <= j < all.len() && all[j] == y;
                if j < kept.len() {
                    assert(kept[j] == y);
                    assert(kept.contains(y));
                    assert(init.contains(y));
                    let i = choose|i: int| 0 <= i < init.len() && init[i] == y;
                    assert(row[i] == y);
                } else {
                    assert(row[row.len() - 1] == y);
                }
            }
        }
        if row.no_duplicates() {
            assert(init.no_duplicates());
            if last != x {
                assert(!init.contains(last)) by {
                    if init.contains(last) {
                        let i = choose|i: int| 0 <= i < init.len() && init[i] == last;
                        assert(row[i] == row[row.len() - 1]);
                    }
                }
                assert(!kept.contains(last));
            }
        }
        if !row.contains(x) {
            assert(row[row.len() - 1] != x);
            assert(!init.contains(x)) by {
                if init.contains(x) {
                    let i = choose|i: int| 0 <= i < init.len() && init[i] == x;
                    assert(row[i] == x);
                }
            }
            assert(all =~= row);
        }
    }
}

/// Taking `x` out again after appending it gives the row back, if the row
/// did not hold `x`.
pub proof fn lemma_without_push(row: Seq<usize>, x: usize)
    requires
        !row.contains(x),
    ensures
        without(row.push(x), x) == row,
{
    reveal(Seq::filter);
    lemma_without(row, x);
    assert(row.push(x).drop_last() =~= row);
}

/// The neighbours after an edge was appended: those before, and the two
/// ends for each other.
pub proof fn lemma_with_edge(adj: Seq<Seq<usize>>, a: usize, b: usize)
    requires
        a < adj.len(),
        b < adj.len(),
        a != b,
    ensures
        with_edge(adj, a, b).len() == adj.len(),
        forall|u: usize, v: usize| #[trigger]
            adjacent(with_edge(adj, a, b), u, v) <==> (adjacent(adj, u, v) || (u == a && v == b)
                || (u == b && v == a)),
        with_edge(adj, a, b)[a as int] == adj[a as int].push(b),
        with_edge(adj, a, b)[b as int] == adj[b as int].push(a),
        forall|c: int|
            0 <= c < adj.len() && c != a && c != b ==> #[trigger] with_edge(adj, a, b)[c] == adj[c],
{
    let t = with_edge(adj, a, b);
    assert forall|u: usize, v: usize| #[trigger]
        adjacent(t, u, v) <==> (adjacent(adj, u, v) || (u == a && v == b) || (u == b && v == a)) by {
        if u < adj.len() {
            let old_row = adj[u as int];
            let new_row = t[u as int];
            if u == a || u == b {
                let w = if u == a {
                    b
                } else {
                    a
                };
                assert(new_row == old_row.push(w));
                if old_row.contains(v) {
                    let i = choose|i: int| 0 <= i < old_row.len() && old_row[i] == v;
                    assert(new_row[i] == v);
                }
                if v == w {
                    assert(new_row[new_row.len() - 1] == v);
                }
                if new_row.contains(v) {
                    let i = choose|i: int| 0 <= i < new_row.len() && new_row[i] == v;
                    if i < old_row.len() {
                        assert(old_row[i] == v);
                    }
                }
            }
        }
    }
}

/// The neighbours after an edge was removed: those before, but for the two
/// ends, which no longer list each other.
pub proof fn lemma_after_remove(adj: Seq<Seq<usize>>, a: usize, b: usize)
    requires
        a < adj.len(),
        b < adj.len(),
    ensures
        after_remove(adj, a, b).len() == adj.len(),
        forall|u: usize, v: usize| #[trigger]
            adjacent(after_remove(adj, a, b), u, v) <==> (adjacent(adj, u, v) && !(u == a && v == b)
                && !(u == b && v == a)),
        no_parallel(adj) ==> no_parallel(after_remove(adj, a, b)),
{
    let first = adj.update(a as int, without(adj[a as int], b));
    let t = after_remove(adj, a, b);
    lemma_without(adj[a as int], b);
    lemma_without(first[b as int], a);
    assert forall|u: usize, v: usize| #[trigger]
        adjacent(t, u, v) <==> (adjacent(adj, u, v) && !(u == a && v == b) && !(u == b && v == a)) by {
        if u < adj.len() {
            if u == b {
                assert(t[u as int] == without(first[b as int], a));
            } else if u == a {
                assert(t[u as int] == without(adj[a as int], b));
            } else {
                assert(t[u as int] == adj[u as int]);
            }
        }
    }
    if no_parallel(adj) {
        assert forall|c: int| 0 <= c < t.len() implies (#[trigger] t[c]).no_duplicates() by {
            assert(adj[c].no_duplicates());
            assert(first[c].no_duplicates());
        }
    }
}

/// Adding an edge keeps a simple graph simple.
pub proof fn lemma_after_add_simple(adj: Seq<Seq<usize>>, a: usize, b: usize)
    requires
        simple(adj),
        a < adj.len(),
        b < adj.len(),
    ensures
        simple(after_add(adj, a, b)),
        after_add(adj, a, b).len() == adj.len(),
{
    if a != b && !adjacent(adj, a, b) && !adjacent(adj, b, a) {
        let t = with_edge(adj, a, b);
        lemma_with_edge(adj, a, b);
        assert forall|c: int, k: int| 0 <= c < t.len() && 0 <= k < t[c].len() implies (
        #[trigger] t[c][k]) < t.len() by {
            if c == a {
                if k < adj[c].len() {
                    assert(t[c][k] == adj[c][k]);
                }
            } else if c == b {
                if k < adj[c].len() {
                    assert(t[c][k] == adj[c][k]);
                }
            } else {
                assert(t[c] == adj[c]);
            }
        }
        assert forall|c: int| 0 <= c < t.len() implies (#[trigger] t[c]).no_duplicates() by {
            assert(adj[c].no_duplicates());
            if c == a || c == b {
                let w = if c == a {
                    b
                } else {
                    a
                };
                assert(t[c] == adj[c].push(w));
                assert(!adjacent(adj, c as usize, w));
                assert forall|i: int, j: int|
                    0 <= i < t[c].len() && 0 <= j < t[c].len() && i != j implies t[c][i]
                    != t[c][j] by {
                    if i < adj[c].len() && j < adj[c].len() {
                        assert(adj[c][i] != adj[c][j]);
                    } else if i < adj[c].len() {
                        assert(adj[c].contains(adj[c][i]));
                    } else {
                        assert(adj[c].contains(adj[c][j]));
                    }
                }
            }
        }
        assert(symmetric(t)) by {
            assert forall|u: usize, v: usize| #[trigger] adjacent(t, u, v) implies adjacent(t, v, u) by {
                if adjacent(adj, u, v) {
                    assert(adjacent(adj, v, u));
                }
            }
        }
        assert(loop_free(t)) by {
            assert forall|u: usize| !#[trigger] adjacent(t, u, u) by {
                assert(!adjacent(adj, u, u));
            }
        }
    }
}

/// Removing an edge keeps a simple graph simple.
pub proof fn lemma_after_remove_simple(adj: Seq<Seq<usize>>, a: usize, b: usize)
    requires
        simple(adj),
        a < adj.len(),
        b < adj.len(),
    ensures
        simple(after_remove(adj, a, b)),
        after_remove(adj, a, b).len() == adj.len(),
{
    let t = after_remove(adj, a, b);
    lemma_after_remove(adj, a, b);
    assert forall|c: int, k: int| 0 <= c < t.len() && 0 <= k < t[c].len() implies (
    #[trigger] t[c][k]) < t.len() by {
        assert(t[c].contains(t[c][k]));
        assert(adjacent(t, c as usize, t[c][k]));
        assert(adjacent(adj, c as usize, t[c][k]));
        let i = choose|i: int| 0 <= i < adj[c].len() && adj[c][i] == t[c][k];
        assert(adj[c][i] < adj.len());
    }
    assert(symmetric(t)) by {
        assert forall|u: usize, v: usize| #[trigger] adjacent(t, u, v) implies adjacent(t, v, u) by {
            assert(adjacent(adj, u, v));
            assert(adjacent(adj, v, u));
        }
    }
    assert(loop_free(t)) by {
        assert forall|u: usize| !#[trigger] adjacent(t, u, u) by {
            assert(!adjacent(adj, u, u));
        }
    }
}

/// Adding an edge keeps every entry the name of a node.
pub proof fn lemma_after_add_in_range(adj: Seq<Seq<usize>>, a: usize, b: usize)
    requires
        in_range(adj),
        a < adj.len(),
        b < adj.len(),
    ensures
        in_range(after_add(adj, a, b)),
        after_add(adj, a, b).len() == adj.len(),
{
    if a != b && !adjacent(adj, a, b) && !adjacent(adj, b, a) {
        let t = with_edge(adj, a, b);
        lemma_with_edge(adj, a, b);
        assert forall|c: int, k: int| 0 <= c < t.len() && 0 <= k < t[c].len() implies (
        #[trigger] t[c][k]) < t.len() by {
            if c == a || c == b {
                if k < adj[c].len() {
                    assert(t[c][k] == adj[c][k]);
                }
            } else {
                assert(t[c] == adj[c]);
            }
        }
    }
}

/// Removing an edge keeps every entry the name of a node.
pub proof fn lemma_after_remove_in_range(adj: Seq<Seq<usize>>, a: usize, b: usize)
    requires
        in_range(adj),
        a < adj.len(),
        b < adj.len(),
    ensures
        in_range(after_remove(adj, a, b)),
        after_remove(adj, a, b).len() == adj.len(),
{
    let t = after_remove(adj, a, b);
    lemma_after_remove(adj, a, b);
    assert forall|c: int, k: int| 0 <= c < t.len() && 0 <= k < t[c].len() implies (
    #[trigger] t[c][k]) < t.len() by {
        assert(t[c].contains(t[c][k]));
        assert(adjacent(t, c as usize, t[c][k]));
        assert(adjacent(adj, c as usize, t[c][k]));
        let i = choose|i: int| 0 <= i < adj[c].len() && adj[c][i] == t[c][k];
        assert(adj[c][i] < adj.len());
    }
}

/// Toggling an edge keeps every entry the name of a node.
pub proof fn lemma_after_toggle_in_range(adj: Seq<Seq<usize>>, a: usize, b: usize)
    requires
        in_range(adj),
        a < adj.len(),
        b < adj.len(),
    ensures
        in_range(after_toggle(adj, a, b)),
        after_toggle(adj, a, b).len() == adj.len(),
{
    lemma_after_add_in_range(adj, a, b);
    lemma_after_remove_in_range(adj, a, b);
}

/// Toggling an edge keeps a simple graph simple.
pub proof fn lemma_after_toggle_simple(adj: Seq<Seq<usize>>, a: usize, b: usize)
    requires
        simple(adj),
        a < adj.len(),
        b < adj.len(),
    ensures
        simple(after_toggle(adj, a, b)),
        after_toggle(adj, a, b).len() == adj.len(),
{
    lemma_after_add_simple(adj, a, b);
    lemma_after_remove_simple(adj, a, b);
}

/// Rows without an entry describe a simple graph.
pub proof fn lemma_empty_rows_simple(n: nat)
    requires
        n <= usize::MAX,
    ensures
        simple(empty_rows(n)),
        forall|a: usize, b: usize| !adjacent(empty_rows(n), a, b),
{
    assert forall|a: usize, b: usize| !adjacent(empty_rows(n), a, b) by {
        if a < n {
            assert(empty_rows(n)[a as int] =~= Seq::<usize>::empty());
        }
    }
}

/// One more row without an entry leaves the neighbours as they were.
pub proof fn lemma_push_empty_row(adj: Seq<Seq<usize>>)
    requires
        adj.len() < usize::MAX,
    ensures
        forall|a: usize, b: usize|
            adjacent(adj.push(Seq::empty()), a, b) <==> adjacent(adj, a, b),
        in_range(adj) ==> in_range(adj.push(Seq::empty())),
        symmetric(adj) ==> symmetric(adj.push(Seq::empty())),
        loop_free(adj) ==> loop_free(adj.push(Seq::empty())),
        no_parallel(adj) ==> no_parallel(adj.push(Seq::empty())),
{
    let h = adj.push(Seq::<usize>::empty());
    let n = adj.len();
    assert forall|a: usize, b: usize| adjacent(h, a, b) <==> adjacent(adj, a, b) by {
        if a < n {
            assert(h[a as int] == adj[a as int]);
        } else if a == n {
            assert(h[a as int] =~= Seq::<usize>::empty());
        }
    }
    if in_range(adj) {
        assert forall|a: int, k: int| 0 <= a < h.len() && 0 <= k < h[a].len() implies (
        #[trigger] h[a][k]) < h.len() by {
            assert(a < n);
            assert(h[a][k] == adj[a][k]);
        }
    }
    if symmetric(adj) {
        assert forall|a: usize, b: usize| #[trigger] adjacent(h, a, b) implies adjacent(h, b, a) by {
            assert(adjacent(adj, a, b));
            assert(adjacent(adj, b, a));
        }
    }
    if loop_free(adj) {
        assert forall|a: usize| !#[trigger] adjacent(h, a, a) by {
            assert(!adjacent(adj, a, a));
        }
    }
    if no_parallel(adj) {
        assert forall|a: int| 0 <= a < h.len() implies (#[trigger] h[a]).no_duplicates() by {
            if a < n {
                assert(adj[a].no_duplicates());
            }
        }
    }
}

/// Adding an edge keeps the rows symmetric if they were, and likewise free
/// of self-loops and free of parallel edges.
pub proof fn lemma_after_add_keeps(adj: Seq<Seq<usize>>, a: usize, b: usize)
    requires
        a < adj.len(),
        b < adj.len(),
    ensures
        after_add(adj, a, b).len() == adj.len(),
        symmetric(adj) ==> symmetric(after_add(adj, a, b)),
        loop_free(adj) ==> loop_free(after_add(adj, a, b)),
        no_parallel(adj) ==> no_parallel(after_add(adj, a, b)),
{
    if a != b && !adjacent(adj, a, b) && !adjacent(adj, b, a) {
        let t = with_edge(adj, a, b);
        lemma_with_edge(adj, a, b);
        if symmetric(adj) {
            assert forall|u: usize, v: usize| #[trigger] adjacent(t, u, v) implies adjacent(t, v, u) by {
                if adjacent(adj, u, v) {
                    assert(adjacent(adj, v, u));
                }
            }
        }
        if loop_free(adj) {
            assert forall|u: usize| !#[trigger] adjacent(t, u, u) by {
                assert(!adjacent(adj, u, u));
            }
        }
        if no_parallel(adj) {
            assert forall|c: int| 0 <= c < t.len() implies (#[trigger] t[c]).no_duplicates() by {
                assert(adj[c].no_duplicates());
                if c == a || c == b {
                    let w = if c == a {
                        b
                    } else {
                        a
                    };
                    assert(t[c] == adj[c].push(w));
                    assert(!adjacent(adj, c as usize, w));
                    assert forall|i: int, j: int|
                        0 <= i < t[c].len() && 0 <= j < t[c].len() && i != j implies t[c][i]
                        != t[c][j] by {
                        if i < adj[c].len() && j < adj[c].len() {
                            assert(adj[c][i] != adj[c][j]);
                        } else if i < adj[c].len() {
                            assert(adj[c].contains(adj[c][i]));
                        } else {
                            assert(adj[c].contains(adj[c][j]));
                        }
                    }
                }
            }
        }
    }
}

/// Removing an edge keeps the rows symmetric if they were, and likewise
/// free of self-loops and free of parallel edges.
pub proof fn lemma_after_remove_keeps(adj: Seq<Seq<usize>>, a: usize, b: usize)
    requires
        a < adj.len(),
        b < adj.len(),
    ensures
        after_remove(adj, a, b).len() == adj.len(),
        symmetric(adj) ==> symmetric(after_remove(adj, a, b)),
        loop_free(adj) ==> loop_free(after_remove(adj, a, b)),
        no_parallel(adj) ==> no_parallel(after_remove(adj, a, b)),
{
    let t = after_remove(adj, a, b);
    lemma_after_remove(adj, a, b);
    if symmetric(adj) {
        assert forall|u: usize, v: usize| #[trigger] adjacent(t, u, v) implies adjacent(t, v, u) by {
            assert(adjacent(adj, u, v));
            assert(adjacent(adj, v, u));
        }
    }
    if loop_free(adj) {
        assert forall|u: usize| !#[trigger] adjacent(t, u, u) by {
            assert(!adjacent(adj, u, u));
        }
    }
}

/// Toggling an edge keeps the rows symmetric if they were, and likewise
/// free of self-loops and free of parallel edges.
pub proof fn lemma_after_toggle_keeps(adj: Seq<Seq<usize>>, a: usize, b: usize)
    requires
        a < adj.len(),
        b < adj.len(),
    ensures
        after_toggle(adj, a, b).len() == adj.len(),
        symmetric(adj) ==> symmetric(after_toggle(adj, a, b)),
        loop_free(adj) ==> loop_free(after_toggle(adj, a, b)),
        no_parallel(adj) ==> no_parallel(after_toggle(adj, a, b)),
{
    lemma_after_add_keeps(adj, a, b);
    lemma_after_remove_keeps(adj, a, b);
}

/// Removing an edge that was just added gives the rows back.
pub proof fn lemma_remove_undoes_add(adj: Seq<Seq<usize>>, a: usize, b: usize)
    requires
        a < adj.len(),
        b < adj.len(),
        a != b,
        !adjacent(adj, a, b),
        !adjacent(adj, b, a),
    ensures
        after_remove(with_edge(adj, a, b), a, b) == adj,
{
    let t = with_edge(adj, a, b);
    lemma_with_edge(adj, a, b);
    lemma_without_push(adj[a as int], b);
    lemma_without_push(adj[b as int], a);
    assert(after_remove(t, a, b) =~= adj);
}

/// The neighbours after an edge was added to a symmetric graph.
pub proof fn lemma_after_add(adj: Seq<Seq<usize>>, a: usize, b: usize)
    requires
        symmetric(adj),
        a < adj.len(),
        b < adj.len(),
    ensures
        forall|u: usize, v: usize| #[trigger]
            adjacent(after_add(adj, a, b), u, v) <==> (adjacent(adj, u, v) || (a != b && ((u == a && v
                == b) || (u == b && v == a)))),
{
    if a != b && !adjacent(adj, a, b) && !adjacent(adj, b, a) {
        lemma_with_edge(adj, a, b);
    } else if a != b {
        assert(adjacent(adj, a, b) ==> adjacent(adj, b, a));
        assert(adjacent(adj, b, a) ==> adjacent(adj, a, b));
    }
}

/// The edges that row `a` lists towards higher-numbered nodes, in row
/// order.
pub open spec fn row_edges(a: usize, row: Seq<usize>) -> Seq<Vertex>
    decreases row.len(),
{
    if row.len() == 0 {
        Seq::empty()
    } else {
        let rest = row_edges(a, row.drop_last());
        if a < row.last() {
            rest.push(Vertex { node_id1: a, node_id2: row.last() })
        } else {
            rest
        }
    }
}

/// The edges listed by the first `k` rows.
pub open spec fn edges_upto(adj: Seq<Seq<usize>>, k: nat) -> Seq<Vertex>
    decreases k,
{
    if k == 0 {
        Seq::empty()
    } else {
        edges_upto(adj, (k - 1) as nat) + row_edges((k - 1) as usize, adj[k - 1])
    }
}

/// Every edge once, from its lower-numbered end: row by row, and within a
/// row in the order of its entries.
pub open spec fn edges(adj: Seq<Seq<usize>>) -> Seq<Vertex> {
    edges_upto(adj, adj.len())
}

/// The number of edges.
pub open spec fn edge_count(adj: Seq<Seq<usize>>) -> nat {
    edges(adj).len()
}

/// What `row_edges` holds: the entries of the row above `a`, each with `a`.
pub proof fn lemma_row_edges(a: usize, row: Seq<usize>)
    ensures
        forall|v: Vertex|
            row_edges(a, row).contains(v) <==> (v.node_id1 == a && a < v.node_id2 && row.contains(
                v.node_id2,
            )),
    decreases row.len(),
{
    if row.len() > 0 {
        let init = row.drop_last();
        let rest = row_edges(a, init);
        let all = row_edges(a, row);
        lemma_row_edges(a, init);
        assert forall|v: Vertex|
            all.contains(v) <==> (v.node_id1 == a && a < v.node_id2 && row.contains(v.node_id2)) by {
            if all.contains(v) {
                let i = choose|i: int| 0 <= i < all.len() && all[i] == v;
                if i < rest.len() {
                    assert(rest[i] == v);
                    assert(rest.contains(v));
                    let k = choose|k: int| 0 <= k < init.len() && init[k] == v.node_id2;
                    assert(row[k] == v.node_id2);
                } else {
                    assert(row[row.len() - 1] == v.node_id2);
                }
            }
            if v.node_id1 == a && a < v.node_id2 && row.contains(v.node_id2) {
                let k = choose|k: int| 0 <= k < row.len() && row[k] == v.node_id2;
                if k < init.len() {
                    assert(init[k] == v.node_id2);
                    assert(rest.contains(v));
                    let i = choose|i: int| 0 <= i < rest.len() && rest[i] == v;
                    assert(all[i] == v);
                } else {
                    assert(all[all.len() - 1] == v);
                }
            }
        }
    }
}

/// What the first `k` rows contribute to `edges`.
pub proof fn lemma_edges_upto(adj: Seq<Seq<usize>>, k: nat)
    requires
        k <= adj.len() <= usize::MAX,
    ensures
        forall|v: Vertex|
            edges_upto(adj, k).contains(v) <==> (v.node_id1 < k && v.node_id1 < v.node_id2
                && adjacent(adj, v.node_id1, v.node_id2)),
    decreases k,
{
    if k > 0 {
        let a = (k - 1) as usize;
        let before = edges_upto(adj, (k - 1) as nat);
        let row = row_edges(a, adj[k - 1]);
        lemma_edges_upto(adj, (k - 1) as nat);
        lemma_row_edges(a, adj[k - 1]);
        assert forall|v: Vertex|
            (before + row).contains(v) <==> (v.node_id1 < k && v.node_id1 < v.node_id2 && adjacent(
                adj,
                v.node_id1,
                v.node_id2,
            )) by {
            if (before + row).contains(v) {
                let i = choose|i: int| 0 <= i < (before + row).len() && (before + row)[i] == v;
                if i < before.len() {
                    assert(before[i] == v);
                    assert(before.contains(v));
                } else {
                    assert(row[i - before.len()] == v);
                    assert(row.contains(v));
                }
            }
            if before.contains(v) {
                let i = choose|i: int| 0 <= i < before.len() && before[i] == v;
                assert((before + row)[i] == v);
            }
            if row.contains(v) {
                let i = choose|i: int| 0 <= i < row.len() && row[i] == v;
                assert((before + row)[before.len() + i] == v);
            }
        }
    }
}

/// `edges` holds exactly the pairs of neighbours, each from its
/// lower-numbered end.
pub proof fn lemma_edges(adj: Seq<Seq<usize>>)
    requires
        in_range(adj),
    ensures
        forall|v: Vertex|
            edges(adj).contains(v) <==> (v.node_id1 < v.node_id2 && adjacent(
                adj,
                v.node_id1,
                v.node_id2,
            )),
        forall|i: int|
            0 <= i < edges(adj).len() ==> (#[trigger] edges(adj)[i]).node_id1 < edges(
                adj,
            )[i].node_id2 < adj.len(),
{
    lemma_edges_upto(adj, adj.len());
    assert forall|i: int| 0 <= i < edges(adj).len() implies (#[trigger] edges(adj)[i]).node_id1
        < edges(adj)[i].node_id2 < adj.len() by {
        let v = edges(adj)[i];
        assert(edges(adj).contains(v));
        let row = adj[v.node_id1 as int];
        let k = choose|k: int| 0 <= k < row.len() && row[k] == v.node_id2;
        assert(adj[v.node_id1 as int][k] < adj.len());
    }
}

/// One more entry in a row is one more edge if it names a higher-numbered
/// node.
pub proof fn lemma_row_edges_push(a: usize, row: Seq<usize>, y: usize)
    ensures
        row_edges(a, row.push(y)) == if a < y {
            row_edges(a, row).push(Vertex { node_id1: a, node_id2: y })
        } else {
            row_edges(a, row)
        },
{
    assert(row.push(y).drop_last() =~= row);
}

/// An appended edge is counted once, with its lower-numbered end.
pub proof fn lemma_edges_upto_with_edge(adj: Seq<Seq<usize>>, a: usize, b: usize, k: nat)
    requires
        a < adj.len(),
        b < adj.len(),
        a != b,
        k <= adj.len(),
    ensures
        edges_upto(with_edge(adj, a, b), k).len() == edges_upto(adj, k).len() + if a < k && b < k {
            1nat
        } else if a < k && a < b {
            1nat
        } else if b < k && b < a {
            1nat
        } else {
            0nat
        },
    decreases k,
{
    if k > 0 {
        let c = (k - 1) as usize;
        lemma_edges_upto_with_edge(adj, a, b, (k - 1) as nat);
        lemma_with_edge(adj, a, b);
        if c == a {
            lemma_row_edges_push(a, adj[a as int], b);
        } else if c == b {
            lemma_row_edges_push(b, adj[b as int], a);
        }
    }
}

/// An appended edge is one more edge.
pub proof fn lemma_edge_count_with_edge(adj: Seq<Seq<usize>>, a: usize, b: usize)
    requires
        a < adj.len(),
        b < adj.len(),
        a != b,
    ensures
        edge_count(with_edge(adj, a, b)) == edge_count(adj) + 1,
{
    lemma_with_edge(adj, a, b);
    lemma_edges_upto_with_edge(adj, a, b, adj.len());
}

/// Rows without an entry hold no edge.
pub proof fn lemma_edges_upto_empty(n: nat, k: nat)
    requires
        k <= n,
    ensures
        edges_upto(empty_rows(n), k) == Seq::<Vertex>::empty(),
    decreases k,
{
    if k > 0 {
        lemma_edges_upto_empty(n, (k - 1) as nat);
        assert(empty_rows(n)[k - 1] =~= Seq::<usize>::empty());
        assert(edges_upto(empty_rows(n), k) =~= Seq::<Vertex>::empty());
    }
}

/// The rows after node `a` was joined, in turn, with each of the first
/// `upto` nodes.
pub open spec fn joined_with(adj: Seq<Seq<usize>>, a: usize, upto: nat) -> Seq<Seq<usize>>
    decreases upto,
{
    if upto == 0 {
        adj
    } else {
        after_add(joined_with(adj, a, (upto - 1) as nat), a, (upto - 1) as usize)
    }
}

/// The rows after each of the first `upto` nodes, in turn, was joined with
/// every node.
pub open spec fn joined_all(adj: Seq<Seq<usize>>, upto: nat) -> Seq<Seq<usize>>
    decreases upto,
{
    if upto == 0 {
        adj
    } else {
        joined_with(joined_all(adj, (upto - 1) as nat), (upto - 1) as usize, adj.len())
    }
}

/// Joining a node with the first `upto` nodes keeps the rows symmetric if
/// they were, and likewise free of self-loops, free of parallel edges and
/// within range. In symmetric rows it leaves the node joined with each of
/// those nodes and takes no neighbour away.
pub proof fn lemma_joined_with(adj: Seq<Seq<usize>>, a: usize, upto: nat)
    requires
        a < adj.len(),
        upto <= adj.len() <= usize::MAX,
    ensures
        joined_with(adj, a, upto).len() == adj.len(),
        in_range(adj) ==> in_range(joined_with(adj, a, upto)),
        symmetric(adj) ==> symmetric(joined_with(adj, a, upto)),
        loop_free(adj) ==> loop_free(joined_with(adj, a, upto)),
        no_parallel(adj) ==> no_parallel(joined_with(adj, a, upto)),
        symmetric(adj) ==> forall|u: usize, v: usize| #[trigger]
            adjacent(adj, u, v) ==> adjacent(joined_with(adj, a, upto), u, v),
        symmetric(adj) ==> forall|b: usize|
            b < upto && b != a ==> #[trigger] adjacent(joined_with(adj, a, upto), a, b),
    decreases upto,
{
    if upto > 0 {
        let before = joined_with(adj, a, (upto - 1) as nat);
        let b = (upto - 1) as usize;
        lemma_joined_with(adj, a, (upto - 1) as nat);
        lemma_after_add_keeps(before, a, b);
        if in_range(adj) {
            lemma_after_add_in_range(before, a, b);
        }
        if symmetric(adj) {
            lemma_after_add(before, a, b);
            assert forall|c: usize| c < upto && c != a implies #[trigger] adjacent(
                joined_with(adj, a, upto),
                a,
                c,
            ) by {
                if c < upto - 1 {
                    assert(adjacent(before, a, c));
                }
            }
            assert forall|u: usize, v: usize| #[trigger] adjacent(adj, u, v) implies adjacent(
                joined_with(adj, a, upto),
                u,
                v,
            ) by {
                assert(adjacent(before, u, v));
            }
        }
    }
}

/// Joining every node with every node keeps the rows symmetric if they
/// were, and likewise free of self-loops, free of parallel edges and within
/// range. In symmetric rows it leaves every two distinct nodes joined.
pub proof fn lemma_joined_all(adj: Seq<Seq<usize>>, upto: nat)
    requires
        upto <= adj.len() <= usize::MAX,
    ensures
        joined_all(adj, upto).len() == adj.len(),
        in_range(adj) ==> in_range(joined_all(adj, upto)),
        symmetric(adj) ==> symmetric(joined_all(adj, upto)),
        loop_free(adj) ==> loop_free(joined_all(adj, upto)),
        no_parallel(adj) ==> no_parallel(joined_all(adj, upto)),
        symmetric(adj) ==> forall|u: usize, v: usize| #[trigger]
            adjacent(adj, u, v) ==> adjacent(joined_all(adj, upto), u, v),
        symmetric(adj) ==> forall|a: usize, b: usize|
            a < upto && b < adj.len() && a != b ==> #[trigger] adjacent(joined_all(adj, upto), a, b),
    decreases upto,
{
    if upto > 0 {
        let before = joined_all(adj, (upto - 1) as nat);
        let a = (upto - 1) as usize;
        lemma_joined_all(adj, (upto - 1) as nat);
        lemma_joined_with(before, a, adj.len());
        let after = joined_all(adj, upto);
        if symmetric(adj) {
            assert forall|u: usize, v: usize| #[trigger] adjacent(adj, u, v) implies adjacent(
                after,
                u,
                v,
            ) by {
                assert(adjacent(before, u, v));
            }
            assert forall|c: usize, b: usize|
                c < upto && b < adj.len() && c != b implies #[trigger] adjacent(after, c, b) by {
                if c < upto - 1 {
                    assert(adjacent(before, c, b));
                }
            }
        }
    }
}

/// Whether `list` holds `x`.
pub fn list_contains(list: &Vec<usize>, x: usize) -> (found: bool)
    ensures
        found == list@.contains(x),
{
    let mut i: usize = 0;
    while i < list.len()
        invariant
            i <= list.len(),
            forall|k: int| 0 <= k < i ==> list@[k] != x,
        decreases list.len() - i,
    {
        if list[i] == x {
            return true;
        }
        i += 1;
    }
    false
}

/// Takes every occurrence of `x` out of `list` and keeps the rest in order.
pub fn list_remove(list: &mut Vec<usize>, x: usize)
    ensures
        final(list)@ == without(old(list)@, x),
{
    let mut kept: Vec<usize> = Vec::new();
    let mut i: usize = 0;
    proof {
        reveal(Seq::filter);
        assert(list@.take(0) =~= Seq::<usize>::empty());
    }
    while i < list.len()
        invariant
            i <= list.len(),
            kept@ == without(list@.take(i as int), x),
        decreases list.len() - i,
    {
        proof {
            reveal(Seq::filter);
            assert(list@.take(i + 1).drop_last() =~= list@.take(i as int));
        }
        if list[i] != x {
            kept.push(list[i]);
        }
        i += 1;
    }
    proof {
        assert(list@.take(i as int) =~= list@);
    }
    *list = kept;
}

/// Whether every entry of the adjacency lists names a node.
pub fn rows_in_range(adjacencies: &Vec<Vec<usize>>) -> (ok: bool)
    ensures
        ok == in_range(rows(adjacencies@)),
{
    let n: usize = adjacencies.len();
    let ghost adj = rows(adjacencies@);
    let mut a: usize = 0;
    while a < n
        invariant
            a <= n,
            n == adjacencies.len(),
            adj == rows(adjacencies@),
            forall|c: int, k: int| 0 <= c < a && 0 <= k < adj[c].len() ==> (#[trigger] adj[c][k]) < n,
        decreases n - a,
    {
        let row = &adjacencies[a];
        let mut k: usize = 0;
        while k < row.len()
            invariant
                a < n,
                k <= row.len(),
                n == adjacencies.len(),
                adj == rows(adjacencies@),
                row@ == adj[a as int],
                forall|l: int| 0 <= l < k ==> (#[trigger] row@[l]) < n,
            decreases row.len() - k,
        {
            if row[k] >= n {
                assert(adj[a as int][k as int] >= adj.len());
                return false;
            }
            k += 1;
        }
        a += 1;
    }
    true
}

/// Whether entry `k` of row `a` is in order: it names another node, whose
/// row lists `a` in turn, and it does not repeat an earlier entry of the row.
pub open spec fn entry_in_order(adj: Seq<Seq<usize>>, a: int, k: int) -> bool {
    let b = adj[a][k];
    &&& b < adj.len()
    &&& b != a
    &&& adj[b as int].contains(a as usize)
    &&& forall|l: int| 0 <= l < k ==> adj[a][l] != b
}

/// A graph is simple exactly if every entry of every row is in order.
pub proof fn lemma_simple_by_entries(adj: Seq<Seq<usize>>)
    requires
        adj.len() <= usize::MAX,
    ensures
        simple(adj) <==> (forall|a: int, k: int|
            0 <= a < adj.len() && 0 <= k < adj[a].len() ==> entry_in_order(adj, a, k)),
{
    if simple(adj) {
        assert forall|a: int, k: int|
            0 <= a < adj.len() && 0 <= k < adj[a].len() implies entry_in_order(adj, a, k) by {
            let b = adj[a][k];
            assert(b < adj.len());
            assert(adj[a].contains(b));
            assert(adjacent(adj, a as usize, b));
            assert(adjacent(adj, b, a as usize));
            assert(!adjacent(adj, a as usize, a as usize));
            assert(adj[a].no_duplicates());
        }
    }
    if forall|a: int, k: int|
        0 <= a < adj.len() && 0 <= k < adj[a].len() ==> entry_in_order(adj, a, k) {
        assert forall|a: int, k: int| 0 <= a < adj.len() && 0 <= k < adj[a].len() implies (
        #[trigger] adj[a][k]) < adj.len() by {
            assert(entry_in_order(adj, a, k));
        }
        assert forall|a: usize, b: usize| #[trigger] adjacent(adj, a, b) implies adjacent(adj, b, a) by {
            let k = choose|k: int| 0 <= k < adj[a as int].len() && adj[a as int][k] == b;
            assert(entry_in_order(adj, a as int, k));
        }
        assert forall|a: usize| !#[trigger] adjacent(adj, a, a) by {
            if adjacent(adj, a, a) {
                let k = choose|k: int| 0 <= k < adj[a as int].len() && adj[a as int][k] == a;
                assert(entry_in_order(adj, a as int, k));
            }
        }
        assert forall|a: int| 0 <= a < adj.len() implies (#[trigger] adj[a]).no_duplicates() by {
            assert forall|i: int, j: int|
                0 <= i < adj[a].len() && 0 <= j < adj[a].len() && i != j implies adj[a][i]
                != adj[a][j] by {
                if i < j {
                    assert(entry_in_order(adj, a, j));
                } else {
                    assert(entry_in_order(adj, a, i));
                }
            }
        }
    }
}

/// Whether the adjacency lists describe a simple undirected graph: every
/// entry names a node, no node lists itself, no row lists a node twice, and
/// `b` is listed for `a` exactly if `a` is listed for `b`.
pub fn rows_are_simple(adjacencies: &Vec<Vec<usize>>) -> (ok: bool)
    ensures
        ok == simple(rows(adjacencies@)),
{
    let n: usize = adjacencies.len();
    let ghost adj = rows(adjacencies@);
    proof {
        lemma_simple_by_entries(adj);
    }
    let mut a: usize = 0;
    while a < n
        invariant
            a <= n,
            n == adjacencies.len(),
            adj == rows(adjacencies@),
            simple(adj) <==> (forall|a: int, k: int|
                0 <= a < adj.len() && 0 <= k < adj[a].len() ==> entry_in_order(adj, a, k)),
            forall|c: int, k: int| 0 <= c < a && 0 <= k < adj[c].len() ==> entry_in_order(adj, c, k),
        decreases n - a,
    {
        let row = &adjacencies[a];
        let mut k: usize = 0;
        while k < row.len()
            invariant
                a < n,
                k <= row.len(),
                n == adjacencies.len(),
                adj == rows(adjacencies@),
                row@ == adj[a as int],
                simple(adj) <==> (forall|a: int, k: int|
                    0 <= a < adj.len() && 0 <= k < adj[a].len() ==> entry_in_order(adj, a, k)),
                forall|l: int| 0 <= l < k ==> entry_in_order(adj, a as int, l),
            decreases row.len() - k,
        {
            let b = row[k];
            if b >= n || b == a {
                assert(!entry_in_order(adj, a as int, k as int));
                return false;
            }
            if !list_contains(&adjacencies[b], a) {
                assert(!entry_in_order(adj, a as int, k as int));
                return false;
            }
            let mut l: usize = 0;
            while l < k
                invariant
                    l <= k,
                    k < row.len(),
                    a < adj.len(),
                    adj == rows(adjacencies@),
                    b == row@[k as int],
                    row@ == adj[a as int],
                    simple(adj) <==> (forall|a: int, k: int|
                        0 <= a < adj.len() && 0 <= k < adj[a].len() ==> entry_in_order(adj, a, k)),
                    forall|m: int| 0 <= m < l ==> row@[m] != b,
                decreases k - l,
            {
                if row[l] == b {
                    assert(adj[a as int][l as int] == adj[a as int][k as int]);
                    assert(!entry_in_order(adj, a as int, k as int));
                    return false;
                }
                l += 1;
            }
            assert(entry_in_order(adj, a as int, k as int));
            k += 1;
        }
        a += 1;
    }
    true
}

} // verus!
