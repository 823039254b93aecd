//! What the cycle detector decides on a simple graph.
//!
//! The traversal from a node reports no cycle exactly if the component of
//! that node is a tree. A tree is described by a parent for every node but
//! the root, such that every edge of the component joins a node to its
//! parent, and by ranks that grow from parent to child.

use vstd::prelude::*;
use crate::adjacency::{adjacent, in_range, simple, symmetric};
use crate::connectivity::{
    connected, extends_by, lemma_connected_extended, lemma_connected_in_range,
    lemma_connected_induct, lemma_connected_self, lemma_connected_step, lemma_connected_sym,
    lemma_connected_trans,
};
use crate::cycle::{
    cycle_from, cyclic, lemma_pushed, lemma_unvisited_mark, offered, pushed, search, unmarked,
    unvisited,
};

verus! {

/// Whether `parent` and `rank` make a tree of the component of `root`:
/// every node of the component but `root` has its parent among its
/// neighbours, at a lower rank, and every edge of the component joins a node
/// to its parent.
pub open spec fn is_rooted_tree(
    adj: Seq<Seq<usize>>,
    root: usize,
    parent: Seq<usize>,
    rank: Seq<nat>,
) -> bool {
    &&& root < adj.len()
    &&& parent.len() == adj.len()
    &&& rank.len() == adj.len()
    &&& forall|v: usize| #[trigger]
        connected(adj, root, v) && v != root ==> adjacent(adj, v, parent[v as int])
            && rank[parent[v as int] as int] < rank[v as int]
    &&& forall|v: usize, x: usize|
        connected(adj, root, v) && #[trigger] adjacent(adj, v, x) ==> (v != root && x
            == parent[v as int]) || (x != root && parent[x as int] == v)
}

/// Whether the component of `root` is a tree.
pub open spec fn tree_at(adj: Seq<Seq<usize>>, root: usize) -> bool {
    exists|parent: Seq<usize>, rank: Seq<nat>| is_rooted_tree(adj, root, parent, rank)
}

/// Whether every component is a tree.
pub open spec fn is_forest(adj: Seq<Seq<usize>>) -> bool {
    forall|root: usize| root < adj.len() ==> #[trigger] tree_at(adj, root)
}

/// Every marked node but the root has a marked parent among its neighbours,
/// at a lower rank.
spec fn parents_marked(
    adj: Seq<Seq<usize>>,
    root: usize,
    visited: Seq<bool>,
    parent: Seq<usize>,
    rank: Seq<nat>,
) -> bool {
    forall|v: usize|
        v < adj.len() && #[trigger] visited[v as int] && v != root ==> {
            &&& parent[v as int] < adj.len()
            &&& visited[parent[v as int] as int]
            &&& adjacent(adj, v, parent[v as int])
            &&& rank[parent[v as int] as int] < rank[v as int]
        }
}

/// Every pair on the stack leads from a marked node to a neighbour.
spec fn stack_from_marked(adj: Seq<Seq<usize>>, visited: Seq<bool>, stack: Seq<(usize, usize)>) -> bool {
    forall|i: int|
        0 <= i < stack.len() ==> {
            let e = #[trigger] stack[i];
            e.0 < adj.len() && visited[e.0 as int] && adjacent(adj, e.0, e.1)
        }
}

/// The edge from the marked node `v` to `x` leads to the parent of `v`, or
/// to a marked child of `v`, or is still on the stack.
spec fn settled(
    adj: Seq<Seq<usize>>,
    root: usize,
    visited: Seq<bool>,
    stack: Seq<(usize, usize)>,
    parent: Seq<usize>,
    v: usize,
    x: usize,
) -> bool {
    ||| (v != root && x == parent[v as int])
    ||| (x < adj.len() && visited[x as int] && x != root && parent[x as int] == v)
    ||| stack.contains((v, x))
}

/// Every edge from a marked node is settled.
spec fn edges_settled(
    adj: Seq<Seq<usize>>,
    root: usize,
    visited: Seq<bool>,
    stack: Seq<(usize, usize)>,
    parent: Seq<usize>,
) -> bool {
    forall|v: usize, x: usize|
        v < adj.len() && visited[v as int] && #[trigger] adjacent(adj, v, x) ==> settled(
            adj,
            root,
            visited,
            stack,
            parent,
            v,
            x,
        )
}

/// Every marked node has a rank below `clock`.
spec fn ranks_below(adj: Seq<Seq<usize>>, visited: Seq<bool>, rank: Seq<nat>, clock: nat) -> bool {
    forall|v: usize| v < adj.len() && #[trigger] visited[v as int] ==> rank[v as int] < clock
}

/// What holds of a traversal that has not come upon a marked node so far.
spec fn growing(
    adj: Seq<Seq<usize>>,
    root: usize,
    visited: Seq<bool>,
    stack: Seq<(usize, usize)>,
    parent: Seq<usize>,
    rank: Seq<nat>,
    clock: nat,
) -> bool {
    &&& root < adj.len()
    &&& visited.len() == adj.len()
    &&& parent.len() == adj.len()
    &&& rank.len() == adj.len()
    &&& visited[root as int]
    &&& parents_marked(adj, root, visited, parent, rank)
    &&& stack_from_marked(adj, visited, stack)
    &&& edges_settled(adj, root, visited, stack, parent)
    &&& ranks_below(adj, visited, rank, clock)
}

/// One step of the traversal keeps what holds of it.
proof fn lemma_growing_step(
    adj: Seq<Seq<usize>>,
    root: usize,
    visited: Seq<bool>,
    stack: Seq<(usize, usize)>,
    parent: Seq<usize>,
    rank: Seq<nat>,
    clock: nat,
)
    requires
        simple(adj),
        growing(adj, root, visited, stack, parent, rank, clock),
        stack.len() > 0,
        !visited[stack.last().1 as int],
    ensures
        stack.last().1 < adj.len(),
        growing(
            adj,
            root,
            visited.update(stack.last().1 as int, true),
            pushed(stack.drop_last(), stack.last().1, adj[stack.last().1 as int], stack.last().0),
            parent.update(stack.last().1 as int, stack.last().0),
            rank.update(stack.last().1 as int, clock),
            clock + 1,
        ),
{
    let last = stack.last().0;
    let current = stack.last().1;
    let top = stack[stack.len() - 1];
    assert(top.0 < adj.len() && visited[top.0 as int] && adjacent(adj, top.0, top.1));
    assert(current < adj.len()) by {
        let k = choose|k: int| 0 <= k < adj[last as int].len() && adj[last as int][k] == current;
        assert(adj[last as int][k] < adj.len());
    }
    assert(adjacent(adj, current, last));
    assert(current != root);
    assert(current != last);
    let row = adj[current as int];
    let rest = stack.drop_last();
    let visited2 = visited.update(current as int, true);
    let stack2 = pushed(rest, current, row, last);
    let parent2 = parent.update(current as int, last);
    let rank2 = rank.update(current as int, clock);
    let new = offered(current, row, last);
    lemma_pushed(rest, current, row, last);
    assert(parents_marked(adj, root, visited2, parent2, rank2)) by {
        assert forall|v: usize|
            v < adj.len() && #[trigger] visited2[v as int] && v != root implies {
            &&& parent2[v as int] < adj.len()
            &&& visited2[parent2[v as int] as int]
            &&& adjacent(adj, v, parent2[v as int])
            &&& rank2[parent2[v as int] as int] < rank2[v as int]
        } by {
            if v != current {
                assert(visited[v as int]);
                assert(visited[parent[v as int] as int]);
            }
        }
    }
    assert(stack_from_marked(adj, visited2, stack2)) by {
        assert forall|i: int| 0 <= i < stack2.len() implies {
            let e = #[trigger] stack2[i];
            e.0 < adj.len() && visited2[e.0 as int] && adjacent(adj, e.0, e.1)
        } by {
            if i < rest.len() {
                assert(stack2[i] == stack[i]);
            } else {
                let e = new[i - rest.len()];
                assert(stack2[i] == e);
                assert(row.contains(e.1));
            }
        }
    }
    assert(edges_settled(adj, root, visited2, stack2, parent2)) by {
        assert forall|v: usize, x: usize|
            v < adj.len() && visited2[v as int] && #[trigger] adjacent(adj, v, x) implies settled(
            adj,
            root,
            visited2,
            stack2,
            parent2,
            v,
            x,
        ) by {
            if v == current {
                if x != last {
                    assert(new.contains((current, x)));
                    let j = choose|j: int| 0 <= j < new.len() && new[j] == (current, x);
                    assert(stack2[rest.len() + j] == (current, x));
                }
            } else {
                assert(settled(adj, root, visited, stack, parent, v, x));
                if stack.contains((v, x)) {
                    let i = choose|i: int| 0 <= i < stack.len() && stack[i] == (v, x);
                    if i < rest.len() {
                        assert(stack2[i] == (v, x));
                    } else {
                        assert(x == current && v == last);
                    }
                }
            }
        }
    }
    assert(ranks_below(adj, visited2, rank2, clock + 1)) by {
        assert forall|v: usize| v < adj.len() && #[trigger] visited2[v as int] implies rank2[v as int]
            < clock + 1 by {
            if v != current {
                assert(visited[v as int]);
            }
        }
    }
}

/// A traversal that comes to its end without coming upon a marked node
/// has made a tree of the component of the root.
proof fn lemma_growing_ends(
    adj: Seq<Seq<usize>>,
    root: usize,
    visited: Seq<bool>,
    stack: Seq<(usize, usize)>,
    parent: Seq<usize>,
    rank: Seq<nat>,
    clock: nat,
) -> (tree: (Seq<usize>, Seq<nat>))
    requires
        simple(adj),
        growing(adj, root, visited, stack, parent, rank, clock),
        !search(adj, visited, stack),
    ensures
        is_rooted_tree(adj, root, tree.0, tree.1),
    decreases unvisited(visited),
{
    if stack.len() == 0 {
        let marked = |v: usize| v < adj.len() && visited[v as int];
        assert forall|u: usize, v: usize| marked(u) && #[trigger] adjacent(adj, u, v) implies marked(
            v,
        ) by {
            assert(settled(adj, root, visited, stack, parent, u, v));
            if u != root && v == parent[u as int] {
                assert(visited[u as int]);
            }
        }
        assert forall|v: usize| #[trigger] connected(adj, root, v) implies marked(v) by {
            lemma_connected_induct(adj, root, v, marked);
        }
        assert forall|v: usize| #[trigger] connected(adj, root, v) && v != root implies adjacent(
            adj,
            v,
            parent[v as int],
        ) && rank[parent[v as int] as int] < rank[v as int] by {
            assert(marked(v));
            assert(visited[v as int]);
        }
        assert forall|v: usize, x: usize|
            connected(adj, root, v) && #[trigger] adjacent(adj, v, x) implies (v != root && x
            == parent[v as int]) || (x != root && parent[x as int] == v) by {
            assert(marked(v));
            assert(settled(adj, root, visited, stack, parent, v, x));
        }
        (parent, rank)
    } else {
        let last = stack.last().0;
        let current = stack.last().1;
        let top = stack[stack.len() - 1];
        assert(top.0 < adj.len() && visited[top.0 as int] && adjacent(adj, top.0, top.1));
        assert(current < adj.len()) by {
            let k = choose|k: int| 0 <= k < adj[last as int].len() && adj[last as int][k] == current;
            assert(adj[last as int][k] < adj.len());
        }
        assert(!visited[current as int]);
        lemma_growing_step(adj, root, visited, stack, parent, rank, clock);
        lemma_unvisited_mark(visited, current as int);
        lemma_growing_ends(
            adj,
            root,
            visited.update(current as int, true),
            pushed(stack.drop_last(), current, adj[current as int], last),
            parent.update(current as int, last),
            rank.update(current as int, clock),
            clock + 1,
        )
    }
}

/// Where the traversal from `root` reports no cycle, the component of
/// `root` is a tree.
pub proof fn lemma_no_cycle_is_tree(adj: Seq<Seq<usize>>, root: usize)
    requires
        simple(adj),
        root < adj.len(),
        !cycle_from(adj, root),
    ensures
        tree_at(adj, root),
{
    let n = adj.len();
    let visited0 = unmarked(n);
    let stack0 = seq![(root, root)];
    let visited = visited0.update(root as int, true);
    let row = adj[root as int];
    assert(stack0.last() == (root, root));
    assert(stack0.drop_last() =~= Seq::<(usize, usize)>::empty());
    let stack = pushed(Seq::empty(), root, row, root);
    assert(search(adj, visited0, stack0) == search(adj, visited, stack));
    let parent = Seq::new(n, |i: int| root);
    let rank = Seq::new(n, |i: int| 0nat);
    lemma_pushed(Seq::empty(), root, row, root);
    assert(growing(adj, root, visited, stack, parent, rank, 1)) by {
        assert forall|i: int| 0 <= i < stack.len() implies {
            let e = #[trigger] stack[i];
            e.0 < adj.len() && visited[e.0 as int] && adjacent(adj, e.0, e.1)
        } by {
            assert(row.contains(stack[i].1));
        }
        assert forall|v: usize, x: usize|
            v < adj.len() && visited[v as int] && #[trigger] adjacent(adj, v, x) implies settled(
            adj,
            root,
            visited,
            stack,
            parent,
            v,
            x,
        ) by {
            assert(v == root);
            assert(!adjacent(adj, root, root));
            assert(stack.contains((root, x)));
        }
    }
    let tree = lemma_growing_ends(adj, root, visited, stack, parent, rank, 1);
    assert(is_rooted_tree(adj, root, tree.0, tree.1));
}

/// What holds of a traversal through a tree: what is on the stack leads
/// from a marked parent to its unmarked child, to each child once.
spec fn climbing(
    adj: Seq<Seq<usize>>,
    root: usize,
    parent: Seq<usize>,
    visited: Seq<bool>,
    stack: Seq<(usize, usize)>,
) -> bool {
    &&& root < adj.len()
    &&& visited.len() == adj.len()
    &&& visited[root as int]
    &&& forall|v: usize|
        v < adj.len() && #[trigger] visited[v as int] ==> connected(adj, root, v) && (v != root
            ==> parent[v as int] < adj.len() && visited[parent[v as int] as int])
    &&& forall|i: int|
        0 <= i < stack.len() ==> {
            let e = #[trigger] stack[i];
            &&& e.0 < adj.len()
            &&& e.1 < adj.len()
            &&& visited[e.0 as int]
            &&& !visited[e.1 as int]
            &&& adjacent(adj, e.0, e.1)
            &&& parent[e.1 as int] == e.0
            &&& e.1 != root
        }
    &&& forall|i: int, j: int| 0 <= i < j < stack.len() ==> stack[i].1 != stack[j].1
}

/// One step of the traversal through a tree keeps what holds of it.
proof fn lemma_climbing_step(
    adj: Seq<Seq<usize>>,
    root: usize,
    parent: Seq<usize>,
    rank: Seq<nat>,
    visited: Seq<bool>,
    stack: Seq<(usize, usize)>,
)
    requires
        simple(adj),
        is_rooted_tree(adj, root, parent, rank),
        climbing(adj, root, parent, visited, stack),
        stack.len() > 0,
    ensures
        stack.last().1 < adj.len(),
        !visited[stack.last().1 as int],
        climbing(
            adj,
            root,
            parent,
            visited.update(stack.last().1 as int, true),
            pushed(stack.drop_last(), stack.last().1, adj[stack.last().1 as int], stack.last().0),
        ),
{
    let last = stack.last().0;
    let current = stack.last().1;
    let top = stack[stack.len() - 1];
    assert(top.1 < adj.len() && !visited[top.1 as int] && parent[top.1 as int] == top.0);
    let row = adj[current as int];
    let rest = stack.drop_last();
    let visited2 = visited.update(current as int, true);
    let stack2 = pushed(rest, current, row, last);
    let new = offered(current, row, last);
    lemma_pushed(rest, current, row, last);
    assert(visited[last as int]);
    lemma_connected_step(adj, root, last, current);
    assert forall|v: usize| v < adj.len() && #[trigger] visited2[v as int] implies connected(
        adj,
        root,
        v,
    ) && (v != root ==> parent[v as int] < adj.len() && visited2[parent[v as int] as int]) by {
        if v != current {
            assert(visited[v as int]);
        }
    }
    assert forall|i: int| 0 <= i < stack2.len() implies {
        let e = #[trigger] stack2[i];
        &&& e.0 < adj.len()
        &&& e.1 < adj.len()
        &&& visited2[e.0 as int]
        &&& !visited2[e.1 as int]
        &&& adjacent(adj, e.0, e.1)
        &&& parent[e.1 as int] == e.0
        &&& e.1 != root
    } by {
        if i < rest.len() {
            assert(stack2[i] == stack[i]);
            assert(stack[i].1 != stack[stack.len() - 1].1);
        } else {
            let e = new[i - rest.len()];
            assert(stack2[i] == e);
            assert(row.contains(e.1));
            assert(adjacent(adj, current, e.1));
            let k = choose|k: int| 0 <= k < row.len() && row[k] == e.1;
            assert(adj[current as int][k] < adj.len());
            assert(!adjacent(adj, current, current));
            if visited[e.1 as int] {
                assert(visited[parent[e.1 as int] as int]);
            }
        }
    }
    assert forall|i: int, j: int| 0 <= i < j < stack2.len() implies stack2[i].1 != stack2[j].1 by {
        if j < rest.len() {
            assert(stack[i].1 != stack[j].1);
        } else if i >= rest.len() {
            assert(row.no_duplicates());
            assert(new[i - rest.len()].1 != new[j - rest.len()].1);
        } else {
            let old = stack[i];
            let e = new[j - rest.len()];
            assert(stack2[i] == old);
            assert(stack2[j] == e);
            assert(row.contains(e.1));
            assert(adjacent(adj, current, e.1));
            assert(visited[old.0 as int]);
        }
    }
}

/// The traversal through a tree never comes upon a marked node.
proof fn lemma_climbing(
    adj: Seq<Seq<usize>>,
    root: usize,
    parent: Seq<usize>,
    rank: Seq<nat>,
    visited: Seq<bool>,
    stack: Seq<(usize, usize)>,
)
    requires
        simple(adj),
        is_rooted_tree(adj, root, parent, rank),
        climbing(adj, root, parent, visited, stack),
    ensures
        !search(adj, visited, stack),
    decreases unvisited(visited),
{
    if stack.len() > 0 {
        let last = stack.last().0;
        let current = stack.last().1;
        lemma_climbing_step(adj, root, parent, rank, visited, stack);
        lemma_unvisited_mark(visited, current as int);
        lemma_climbing(
            adj,
            root,
            parent,
            rank,
            visited.update(current as int, true),
            pushed(stack.drop_last(), current, adj[current as int], last),
        );
    }
}

/// Where the component of `root` is a tree, the traversal from `root`
/// reports no cycle.
pub proof fn lemma_tree_has_no_cycle(adj: Seq<Seq<usize>>, root: usize)
    requires
        simple(adj),
        tree_at(adj, root),
    ensures
        !cycle_from(adj, root),
{
    let (parent, rank) = choose|parent: Seq<usize>, rank: Seq<nat>|
        is_rooted_tree(adj, root, parent, rank);
    let n = adj.len();
    let visited0 = unmarked(n);
    let stack0 = seq![(root, root)];
    let visited = visited0.update(root as int, true);
    let row = adj[root as int];
    assert(stack0.last() == (root, root));
    assert(stack0.drop_last() =~= Seq::<(usize, usize)>::empty());
    let stack = pushed(Seq::empty(), root, row, root);
    assert(search(adj, visited0, stack0) == search(adj, visited, stack));
    lemma_pushed(Seq::empty(), root, row, root);
    lemma_connected_self(adj, root);
    assert(climbing(adj, root, parent, visited, stack)) by {
        assert forall|i: int| 0 <= i < stack.len() implies {
            let e = #[trigger] stack[i];
            &&& e.0 < adj.len()
            &&& e.1 < adj.len()
            &&& visited[e.0 as int]
            &&& !visited[e.1 as int]
            &&& adjacent(adj, e.0, e.1)
            &&& parent[e.1 as int] == e.0
            &&& e.1 != root
        } by {
            let e = stack[i];
            assert(row.contains(e.1));
            assert(adjacent(adj, root, e.1));
            let k = choose|k: int| 0 <= k < row.len() && row[k] == e.1;
            assert(adj[root as int][k] < adj.len());
        }
        assert(row.no_duplicates());
    }
    lemma_climbing(adj, root, parent, rank, visited, stack);
}

/// On a simple graph the traversal from `root` reports a cycle exactly if
/// the component of `root` is not a tree.
pub proof fn lemma_cycle_from_iff_not_tree(adj: Seq<Seq<usize>>, root: usize)
    requires
        simple(adj),
        root < adj.len(),
    ensures
        cycle_from(adj, root) <==> !tree_at(adj, root),
{
    if cycle_from(adj, root) {
        if tree_at(adj, root) {
            lemma_tree_has_no_cycle(adj, root);
        }
    } else {
        lemma_no_cycle_is_tree(adj, root);
    }
}

/// On a simple graph the traversal reports a cycle from some node exactly
/// if the graph is not a forest.
pub proof fn lemma_cyclic_iff_not_forest(adj: Seq<Seq<usize>>)
    requires
        simple(adj),
    ensures
        cyclic(adj) <==> !is_forest(adj),
{
    if cyclic(adj) {
        let s = choose|s: usize| s < adj.len() && cycle_from(adj, s);
        lemma_cycle_from_iff_not_tree(adj, s);
    }
    if !is_forest(adj) {
        let s = choose|s: usize| s < adj.len() && !tree_at(adj, s);
        lemma_cycle_from_iff_not_tree(adj, s);
    }
}

/// Whether `v` is `top` or descends from it.
spec fn under(parent: Seq<usize>, rank: Seq<nat>, root: usize, top: usize, v: usize) -> bool
    decreases rank[v as int],
{
    v == top || (v != root && rank[parent[v as int] as int] < rank[v as int] && under(
        parent,
        rank,
        root,
        top,
        parent[v as int],
    ))
}

/// If the component of `a` is still a tree with the new edge `{a, b}` in
/// it, then `a` and `b` were not connected without that edge.
pub proof fn lemma_tree_edge_joins(small: Seq<Seq<usize>>, large: Seq<Seq<usize>>, a: usize, b: usize)
    requires
        extends_by(small, large, a, b),
        a != b,
        !adjacent(small, a, b),
        tree_at(large, a),
    ensures
        !connected(small, a, b),
{
    let (parent, rank) = choose|parent: Seq<usize>, rank: Seq<nat>|
        is_rooted_tree(large, a, parent, rank);
    lemma_connected_self(large, a);
    assert(adjacent(large, a, b));
    assert(parent[b as int] == a);
    if connected(small, a, b) {
        let outside = |v: usize| connected(large, a, v) && !under(parent, rank, a, b, v);
        assert(outside(a));
        assert forall|u: usize, v: usize| outside(u) && #[trigger] adjacent(small, u, v) implies outside(
            v,
        ) by {
            assert(adjacent(large, u, v));
            lemma_connected_step(large, a, u, v);
            if u != a && v == parent[u as int] {
                assert(rank[parent[u as int] as int] < rank[u as int]);
            } else {
                assert(v != a && parent[v as int] == u);
                assert(rank[parent[v as int] as int] < rank[v as int]);
            }
        }
        lemma_connected_induct(small, a, b, outside);
        assert(under(parent, rank, a, b, b));
    }
}

/// A tree stays a tree when an edge is added elsewhere.
proof fn lemma_tree_apart(
    small: Seq<Seq<usize>>,
    large: Seq<Seq<usize>>,
    a: usize,
    b: usize,
    root: usize,
)
    requires
        extends_by(small, large, a, b),
        symmetric(small),
        tree_at(small, root),
        !connected(small, root, a),
        !connected(small, root, b),
    ensures
        tree_at(large, root),
{
    let (parent, rank) = choose|parent: Seq<usize>, rank: Seq<nat>|
        is_rooted_tree(small, root, parent, rank);
    assert forall|v: usize| #[trigger] connected(large, root, v) implies connected(small, root, v) by {
        lemma_connected_extended(small, large, a, b, root, v);
    }
    assert forall|v: usize| #[trigger] connected(large, root, v) && v != root implies adjacent(
        large,
        v,
        parent[v as int],
    ) && rank[parent[v as int] as int] < rank[v as int] by {
        assert(connected(small, root, v));
        assert(adjacent(small, v, parent[v as int]));
    }
    assert forall|v: usize, x: usize|
        connected(large, root, v) && #[trigger] adjacent(large, v, x) implies (v != root && x
        == parent[v as int]) || (x != root && parent[x as int] == v) by {
        assert(connected(small, root, v));
        assert(adjacent(small, v, x));
    }
    assert(is_rooted_tree(large, root, parent, rank));
}

/// Two trees joined by an edge are one tree, rooted where the first was.
proof fn lemma_trees_joined(
    small: Seq<Seq<usize>>,
    large: Seq<Seq<usize>>,
    a: usize,
    b: usize,
    root: usize,
)
    requires
        extends_by(small, large, a, b),
        symmetric(small),
        in_range(small),
        a != b,
        tree_at(small, root),
        tree_at(small, b),
        connected(small, root, a),
        !connected(small, a, b),
    ensures
        tree_at(large, root),
{
    let n = small.len();
    let (parent1, rank1) = choose|parent: Seq<usize>, rank: Seq<nat>|
        is_rooted_tree(small, root, parent, rank);
    let (parent2, rank2) = choose|parent: Seq<usize>, rank: Seq<nat>|
        is_rooted_tree(small, b, parent, rank);
    let lift = rank1[a as int] + 1;
    let parent = Seq::new(
        n,
        |v: int|
            if connected(small, root, v as usize) {
                parent1[v]
            } else if v == b {
                a
            } else {
                parent2[v]
            },
    );
    let rank = Seq::new(
        n,
        |v: int|
            if connected(small, root, v as usize) {
                rank1[v]
            } else {
                rank2[v] + lift
            },
    );
    lemma_connected_self(small, b);
    lemma_connected_self(small, a);
    assert(!connected(small, root, b)) by {
        if connected(small, root, b) {
            lemma_connected_sym(small, root, a);
            lemma_connected_trans(small, a, root, b);
        }
    }
    // where a node of the joined tree was before
    assert forall|v: usize| #[trigger] connected(large, root, v) implies v < n && (connected(
        small,
        root,
        v,
    ) || connected(small, b, v)) by {
        lemma_connected_extended(small, large, a, b, root, v);
        if connected(small, root, v) {
            lemma_connected_in_range(small, root, v);
        } else {
            lemma_connected_in_range(small, b, v);
        }
    }
    // the two trees share no node
    assert forall|v: usize| connected(small, b, v) implies !#[trigger] connected(small, root, v) by {
        if connected(small, root, v) {
            lemma_connected_sym(small, b, v);
            lemma_connected_trans(small, root, v, b);
        }
    }
    assert forall|v: usize| #[trigger] connected(large, root, v) && v != root implies adjacent(
        large,
        v,
        parent[v as int],
    ) && rank[parent[v as int] as int] < rank[v as int] by {
        if connected(small, root, v) {
            assert(adjacent(small, v, parent1[v as int]));
            lemma_connected_step(small, root, v, parent1[v as int]);
            lemma_connected_in_range(small, root, parent1[v as int]);
        } else if v == b {
            assert(adjacent(large, b, a));
        } else {
            assert(connected(small, b, v));
            assert(adjacent(small, v, parent2[v as int]));
            lemma_connected_step(small, b, v, parent2[v as int]);
            lemma_connected_in_range(small, b, parent2[v as int]);
        }
    }
    assert forall|v: usize, x: usize|
        connected(large, root, v) && #[trigger] adjacent(large, v, x) implies (v != root && x
        == parent[v as int]) || (x != root && parent[x as int] == v) by {
        lemma_connected_self(small, root);
        if adjacent(small, v, x) {
            if connected(small, root, v) {
                lemma_connected_step(small, root, v, x);
                lemma_connected_in_range(small, root, x);
                assert(parent[v as int] == parent1[v as int]);
                assert(parent[x as int] == parent1[x as int]);
            } else {
                assert(connected(small, b, v));
                lemma_connected_step(small, b, v, x);
                lemma_connected_in_range(small, b, x);
                assert(!connected(small, root, x));
                assert(!connected(small, root, v));
                assert(v != root && x != root);
                if v != b && x == parent2[v as int] {
                    assert(parent[v as int] == parent2[v as int]);
                } else {
                    assert(x != b && parent2[x as int] == v);
                    assert(parent[x as int] == parent2[x as int]);
                }
            }
        } else if v == a && x == b {
            assert(parent[b as int] == a);
        } else {
            assert(v == b && x == a);
            assert(parent[b as int] == a);
        }
    }
    assert(is_rooted_tree(large, root, parent, rank));
}

/// A forest with one more edge between two of its trees is a forest.
pub proof fn lemma_forest_joined(
    small: Seq<Seq<usize>>,
    large: Seq<Seq<usize>>,
    a: usize,
    b: usize,
    root: usize,
)
    requires
        extends_by(small, large, a, b),
        symmetric(small),
        in_range(small),
        a != b,
        !connected(small, a, b),
        forall|s: usize| s < small.len() ==> tree_at(small, s),
        root < small.len(),
    ensures
        tree_at(large, root),
{
    if connected(small, root, a) {
        lemma_trees_joined(small, large, a, b, root);
    } else if connected(small, root, b) {
        assert(!connected(small, b, a)) by {
            if connected(small, b, a) {
                lemma_connected_sym(small, b, a);
            }
        }
        lemma_trees_joined(small, large, b, a, root);
    } else {
        lemma_tree_apart(small, large, a, b, root);
    }
}

/// Where the traversal finds no cycle, a new edge gives it one to find
/// exactly if the ends of the edge were connected already.
pub proof fn lemma_cyclic_extended(small: Seq<Seq<usize>>, large: Seq<Seq<usize>>, a: usize, b: usize)
    requires
        simple(small),
        simple(large),
        extends_by(small, large, a, b),
        a != b,
        !adjacent(small, a, b),
        !cyclic(small),
    ensures
        cyclic(large) <==> connected(small, a, b),
{
    if !cyclic(large) {
        assert(!cycle_from(large, a));
        lemma_no_cycle_is_tree(large, a);
        lemma_tree_edge_joins(small, large, a, b);
    }
    if !connected(small, a, b) {
        assert forall|s: usize| s < small.len() implies tree_at(small, s) by {
            assert(!cycle_from(small, s));
            lemma_no_cycle_is_tree(small, s);
        }
        assert forall|s: usize| s < large.len() implies !#[trigger] cycle_from(large, s) by {
            lemma_forest_joined(small, large, a, b, s);
            lemma_tree_has_no_cycle(large, s);
        }
    }
}

} // verus!
