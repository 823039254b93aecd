//! Walks, connected nodes and the number of components.

use vstd::prelude::*;
use crate::adjacency::{adjacent, empty_rows, in_range, symmetric};

verus! {

/// Whether `walk` leads from node to neighbour through the graph.
pub open spec fn is_walk(adj: Seq<Seq<usize>>, walk: Seq<usize>) -> bool {
    &&& walk.len() > 0
    &&& walk[0] < adj.len()
    &&& forall|i: int| 0 <= i < walk.len() - 1 ==> adjacent(adj, #[trigger] walk[i], walk[i + 1])
}

/// Whether `walk` is a walk from `a` to `b`.
pub open spec fn walk_between(adj: Seq<Seq<usize>>, walk: Seq<usize>, a: usize, b: usize) -> bool {
    is_walk(adj, walk) && walk[0] == a && walk.last() == b
}

/// Whether some walk leads from `a` to `b`.
pub open spec fn connected(adj: Seq<Seq<usize>>, a: usize, b: usize) -> bool {
    exists|walk: Seq<usize>| walk_between(adj, walk, a, b)
}

/// Whether `r` is the lowest-numbered node of its component.
pub open spec fn is_root(adj: Seq<Seq<usize>>, r: usize) -> bool {
    r < adj.len() && forall|b: usize| b < r ==> !connected(adj, r, b)
}

/// How many of the first `k` nodes are the lowest-numbered of their
/// component.
pub open spec fn roots_upto(adj: Seq<Seq<usize>>, k: nat) -> nat
    decreases k,
{
    if k == 0 {
        0
    } else {
        roots_upto(adj, (k - 1) as nat) + if is_root(adj, (k - 1) as usize) {
            1nat
        } else {
            0nat
        }
    }
}

/// The number of connected components.
pub open spec fn component_count(adj: Seq<Seq<usize>>) -> nat {
    roots_upto(adj, adj.len())
}

/// Every node is connected to itself.
pub proof fn lemma_connected_self(adj: Seq<Seq<usize>>, a: usize)
    requires
        a < adj.len(),
    ensures
        connected(adj, a, a),
{
    assert(walk_between(adj, seq![a], a, a));
}

/// A walk can be continued to a neighbour of its end.
pub proof fn lemma_connected_step(adj: Seq<Seq<usize>>, a: usize, b: usize, c: usize)
    requires
        connected(adj, a, b),
        adjacent(adj, b, c),
    ensures
        connected(adj, a, c),
{
    let walk = choose|walk: Seq<usize>| walk_between(adj, walk, a, b);
    let longer = walk.push(c);
    assert forall|i: int| 0 <= i < longer.len() - 1 implies adjacent(
        adj,
        #[trigger] longer[i],
        longer[i + 1],
    ) by {
        if i < walk.len() - 1 {
            assert(adjacent(adj, walk[i], walk[i + 1]));
        }
    }
    assert(walk_between(adj, longer, a, c));
}

/// Whatever holds of `a` and passes from every node to its neighbours holds
/// of every node that `a` is connected to.
pub proof fn lemma_connected_induct(
    adj: Seq<Seq<usize>>,
    a: usize,
    b: usize,
    holds: spec_fn(usize) -> bool,
)
    requires
        connected(adj, a, b),
        holds(a),
        forall|u: usize, v: usize| holds(u) && #[trigger] adjacent(adj, u, v) ==> holds(v),
    ensures
        holds(b),
{
    let walk = choose|walk: Seq<usize>| walk_between(adj, walk, a, b);
    lemma_walk_induct(adj, walk, holds, walk.len() - 1);
}

proof fn lemma_walk_induct(adj: Seq<Seq<usize>>, walk: Seq<usize>, holds: spec_fn(usize) -> bool, i: int)
    requires
        is_walk(adj, walk),
        holds(walk[0]),
        forall|u: usize, v: usize| holds(u) && #[trigger] adjacent(adj, u, v) ==> holds(v),
        0 <= i < walk.len(),
    ensures
        holds(walk[i]),
    decreases i,
{
    if i > 0 {
        lemma_walk_induct(adj, walk, holds, i - 1);
        assert(adjacent(adj, walk[i - 1], walk[i - 1 + 1]));
    }
}

/// Connected nodes are nodes of the graph.
pub proof fn lemma_connected_in_range(adj: Seq<Seq<usize>>, a: usize, b: usize)
    requires
        in_range(adj),
        connected(adj, a, b),
    ensures
        a < adj.len(),
        b < adj.len(),
{
    let walk = choose|walk: Seq<usize>| walk_between(adj, walk, a, b);
    let holds = |v: usize| v < adj.len();
    assert forall|u: usize, v: usize| holds(u) && #[trigger] adjacent(adj, u, v) implies holds(v) by {
        let k = choose|k: int| 0 <= k < adj[u as int].len() && adj[u as int][k] == v;
        assert(adj[u as int][k] < adj.len());
    }
    lemma_connected_induct(adj, a, b, holds);
}

/// Being connected is transitive.
pub proof fn lemma_connected_trans(adj: Seq<Seq<usize>>, a: usize, b: usize, c: usize)
    requires
        connected(adj, a, b),
        connected(adj, b, c),
    ensures
        connected(adj, a, c),
{
    let holds = |v: usize| connected(adj, a, v);
    assert forall|u: usize, v: usize| holds(u) && #[trigger] adjacent(adj, u, v) implies holds(v) by {
        lemma_connected_step(adj, a, u, v);
    }
    lemma_connected_induct(adj, b, c, holds);
}

/// In a symmetric graph being connected is symmetric.
pub proof fn lemma_connected_sym(adj: Seq<Seq<usize>>, a: usize, b: usize)
    requires
        symmetric(adj),
        connected(adj, a, b),
    ensures
        connected(adj, b, a),
{
    let walk = choose|walk: Seq<usize>| walk_between(adj, walk, a, b);
    let holds = |v: usize| connected(adj, v, a);
    lemma_connected_self(adj, a);
    assert forall|u: usize, v: usize| holds(u) && #[trigger] adjacent(adj, u, v) implies holds(v) by {
        assert(adjacent(adj, v, u));
        assert(walk_between(adj, seq![v, u], v, u));
        lemma_connected_trans(adj, v, u, a);
    }
    lemma_connected_induct(adj, a, b, holds);
}

/// Neighbours are connected.
pub proof fn lemma_adjacent_connected(adj: Seq<Seq<usize>>, a: usize, b: usize)
    requires
        adjacent(adj, a, b),
    ensures
        connected(adj, a, b),
{
    assert(walk_between(adj, seq![a, b], a, b));
}

/// A graph with more edges connects at least the same nodes.
pub proof fn lemma_connected_mono(small: Seq<Seq<usize>>, large: Seq<Seq<usize>>, a: usize, b: usize)
    requires
        small.len() == large.len(),
        forall|u: usize, v: usize| #[trigger] adjacent(small, u, v) ==> adjacent(large, u, v),
        connected(small, a, b),
    ensures
        connected(large, a, b),
{
    let walk = choose|walk: Seq<usize>| walk_between(small, walk, a, b);
    assert forall|i: int| 0 <= i < walk.len() - 1 implies adjacent(
        large,
        #[trigger] walk[i],
        walk[i + 1],
    ) by {
        assert(adjacent(small, walk[i], walk[i + 1]));
    }
    assert(walk_between(large, walk, a, b));
}

/// The lowest-numbered node of the component of `a`.
pub proof fn lemma_root_exists(adj: Seq<Seq<usize>>, a: usize) -> (r: usize)
    requires
        a < adj.len(),
    ensures
        is_root(adj, r),
        connected(adj, a, r),
        r <= a,
    decreases a,
{
    if is_root(adj, a) {
        lemma_connected_self(adj, a);
        a
    } else {
        let b = choose|b: usize| b < a && connected(adj, a, b);
        let r = lemma_root_exists(adj, b);
        lemma_connected_trans(adj, a, b, r);
        r
    }
}

/// A component has one lowest-numbered node.
pub proof fn lemma_root_unique(adj: Seq<Seq<usize>>, r: usize, s: usize)
    requires
        symmetric(adj),
        is_root(adj, r),
        is_root(adj, s),
        connected(adj, r, s),
    ensures
        r == s,
{
    lemma_connected_sym(adj, r, s);
}

/// Graphs that connect the same nodes have as many components.
pub proof fn lemma_same_components(one: Seq<Seq<usize>>, other: Seq<Seq<usize>>, k: nat)
    requires
        one.len() == other.len(),
        forall|u: usize, v: usize| connected(one, u, v) <==> connected(other, u, v),
    ensures
        roots_upto(one, k) == roots_upto(other, k),
    decreases k,
{
    if k > 0 {
        lemma_same_components(one, other, (k - 1) as nat);
    }
}

/// Without edges every node is a component of its own.
pub proof fn lemma_empty_components(n: nat, k: nat)
    requires
        k <= n <= usize::MAX,
    ensures
        roots_upto(empty_rows(n), k) == k,
    decreases k,
{
    if k > 0 {
        lemma_empty_components(n, (k - 1) as nat);
        let adj = empty_rows(n);
        let r = (k - 1) as usize;
        assert forall|b: usize| b < r implies !connected(adj, r, b) by {
            if connected(adj, r, b) {
                let holds = |v: usize| v == r;
                assert forall|u: usize, v: usize| holds(u) && #[trigger] adjacent(
                    adj,
                    u,
                    v,
                ) implies holds(v) by {
                    assert(adj[u as int] =~= Seq::<usize>::empty());
                }
                lemma_connected_induct(adj, r, b, holds);
            }
        }
    }
}

/// Whether `large` has the edges of `small` and the edge `{a, b}` besides.
pub open spec fn extends_by(small: Seq<Seq<usize>>, large: Seq<Seq<usize>>, a: usize, b: usize) -> bool {
    &&& small.len() == large.len()
    &&& a < small.len()
    &&& b < small.len()
    &&& forall|u: usize, v: usize| #[trigger]
        adjacent(large, u, v) <==> (adjacent(small, u, v) || (u == a && v == b) || (u == b && v == a))
}

/// What one more edge connects: what was connected before, and what was
/// connected to one end with what was connected to the other.
pub proof fn lemma_connected_extended(
    small: Seq<Seq<usize>>,
    large: Seq<Seq<usize>>,
    a: usize,
    b: usize,
    u: usize,
    v: usize,
)
    requires
        extends_by(small, large, a, b),
        symmetric(small),
    ensures
        connected(large, u, v) <==> (connected(small, u, v) || (connected(small, u, a) && connected(
            small,
            b,
            v,
        )) || (connected(small, u, b) && connected(small, a, v))),
{
    if connected(large, u, v) {
        let holds = |x: usize|
            connected(small, u, x) || (connected(small, u, a) && connected(small, b, x)) || (
            connected(small, u, b) && connected(small, a, x));
        let walk = choose|walk: Seq<usize>| walk_between(large, walk, u, v);
        lemma_connected_self(small, u);
        lemma_connected_self(small, a);
        lemma_connected_self(small, b);
        assert forall|x: usize, y: usize| holds(x) && #[trigger] adjacent(large, x, y) implies holds(
            y,
        ) by {
            if adjacent(small, x, y) {
                if connected(small, u, x) {
                    lemma_connected_step(small, u, x, y);
                } else if connected(small, u, a) && connected(small, b, x) {
                    lemma_connected_step(small, b, x, y);
                } else {
                    lemma_connected_step(small, a, x, y);
                }
            }
        }
        lemma_connected_induct(large, u, v, holds);
    }
    assert(adjacent(large, a, b));
    assert(adjacent(large, b, a));
    if connected(small, u, v) {
        lemma_connected_mono(small, large, u, v);
    }
    if connected(small, u, a) && connected(small, b, v) {
        lemma_connected_mono(small, large, u, a);
        lemma_connected_mono(small, large, b, v);
        lemma_connected_step(large, u, a, b);
        lemma_connected_trans(large, u, b, v);
    }
    if connected(small, u, b) && connected(small, a, v) {
        lemma_connected_mono(small, large, u, b);
        lemma_connected_mono(small, large, a, v);
        lemma_connected_step(large, u, b, a);
        lemma_connected_trans(large, u, a, v);
    }
}

/// One more edge between two components makes one component of the two:
/// its lowest-numbered node is the lower of the two there were.
pub proof fn lemma_roots_after_join(small: Seq<Seq<usize>>, large: Seq<Seq<usize>>, a: usize, b: usize) -> (gone:
    usize)
    requires
        extends_by(small, large, a, b),
        symmetric(small),
        !connected(small, a, b),
    ensures
        gone < small.len(),
        forall|r: usize| is_root(large, r) <==> (is_root(small, r) && r != gone),
        is_root(small, gone),
{
    let ra = lemma_root_exists(small, a);
    let rb = lemma_root_exists(small, b);
    lemma_connected_sym(small, a, ra);
    lemma_connected_sym(small, b, rb);
    if ra == rb {
        lemma_connected_trans(small, a, ra, b);
    }
    let hi = if ra < rb {
        rb
    } else {
        ra
    };
    let lo = if ra < rb {
        ra
    } else {
        rb
    };
    lemma_connected_extended(small, large, a, b, ra, rb);
    lemma_connected_extended(small, large, a, b, rb, ra);
    assert(connected(large, hi, lo));
    assert forall|r: usize| is_root(large, r) <==> (is_root(small, r) && r != hi) by {
        if is_root(large, r) {
            assert forall|c: usize| c < r implies !connected(small, r, c) by {
                if connected(small, r, c) {
                    lemma_connected_mono(small, large, r, c);
                }
            }
        }
        if is_root(small, r) && r != hi {
            assert forall|c: usize| c < r implies !connected(large, r, c) by {
                if connected(large, r, c) {
                    lemma_connected_extended(small, large, a, b, r, c);
                    if connected(small, r, a) && connected(small, b, c) {
                        lemma_connected_trans(small, r, a, ra);
                        lemma_root_unique(small, r, ra);
                        lemma_connected_trans(small, rb, b, c);
                    } else if connected(small, r, b) && connected(small, a, c) {
                        lemma_connected_trans(small, r, b, rb);
                        lemma_root_unique(small, r, rb);
                        lemma_connected_trans(small, ra, a, c);
                    }
                }
            }
        }
    }
    hi
}

/// Graphs with the same lowest-numbered nodes, but for one that only the
/// first has, differ by one in the number of components.
pub proof fn lemma_roots_upto_without(
    small: Seq<Seq<usize>>,
    large: Seq<Seq<usize>>,
    gone: usize,
    k: nat,
)
    requires
        small.len() == large.len(),
        k <= small.len() <= usize::MAX,
        is_root(small, gone),
        forall|r: usize| is_root(large, r) <==> (is_root(small, r) && r != gone),
    ensures
        roots_upto(small, k) == roots_upto(large, k) + if gone < k {
            1nat
        } else {
            0nat
        },
    decreases k,
{
    if k > 0 {
        lemma_roots_upto_without(small, large, gone, (k - 1) as nat);
    }
}

/// One more edge between two components leaves one component fewer.
pub proof fn lemma_components_after_join(
    small: Seq<Seq<usize>>,
    large: Seq<Seq<usize>>,
    a: usize,
    b: usize,
)
    requires
        extends_by(small, large, a, b),
        symmetric(small),
        small.len() <= usize::MAX,
        !connected(small, a, b),
    ensures
        component_count(large) + 1 == component_count(small),
{
    let gone = lemma_roots_after_join(small, large, a, b);
    lemma_roots_upto_without(small, large, gone, small.len());
}

} // verus!
