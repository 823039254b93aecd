//! The cycle detector: a traversal with an explicit work stack.
//!
//! The stack holds pairs `(predecessor, current)`. A pair is taken off the
//! top; if `current` was seen before, a cycle is reported; otherwise
//! `current` is marked and one pair `(current, neighbour)` is put on the stack
//! for every entry of its row other than `predecessor`, in row order. Only
//! the predecessor node is excluded, not the edge the traversal came by, so
//! a row that lists a neighbour twice is reported as a cycle.

use vstd::prelude::*;
use crate::adjacency::{in_range, rows};

verus! {

/// How many nodes are not marked.
pub open spec fn unvisited(visited: Seq<bool>) -> nat
    decreases visited.len(),
{
    if visited.len() == 0 {
        0
    } else {
        unvisited(visited.drop_last()) + if visited.last() {
            0nat
        } else {
            1nat
        }
    }
}

/// Marking an unmarked node leaves one unmarked node fewer.
pub proof fn lemma_unvisited_mark(visited: Seq<bool>, i: int)
    requires
        0 <= i < visited.len(),
        !visited[i],
    ensures
        unvisited(visited.update(i, true)) + 1 == unvisited(visited),
    decreases visited.len(),
{
    let marked = visited.update(i, true);
    if i == visited.len() - 1 {
        assert(marked.drop_last() =~= visited.drop_last());
    } else {
        lemma_unvisited_mark(visited.drop_last(), i);
        assert(marked.drop_last() =~= visited.drop_last().update(i, true));
    }
}

/// The stack after the pairs for `row` were put on it: one pair
/// `(current, x)` for each entry `x` of `row` other than `last`, in order.
pub open spec fn pushed(stack: Seq<(usize, usize)>, current: usize, row: Seq<usize>, last: usize) -> Seq<
    (usize, usize),
>
    decreases row.len(),
{
    if row.len() == 0 {
        stack
    } else {
        let rest = pushed(stack, current, row.drop_last(), last);
        if row.last() != last {
            rest.push((current, row.last()))
        } else {
            rest
        }
    }
}

/// The pairs that `pushed` puts on the stack for `row`.
pub open spec fn offered(current: usize, row: Seq<usize>, last: usize) -> Seq<(usize, usize)> {
    pushed(Seq::empty(), current, row, last)
}

/// What `pushed` puts on the stack: behind what was there, one pair for each
/// entry of the row other than `last`, in row order.
pub proof fn lemma_pushed(stack: Seq<(usize, usize)>, current: usize, row: Seq<usize>, last: usize)
    ensures
        pushed(stack, current, row, last) == stack + offered(current, row, last),
        forall|j: int|
            0 <= j < offered(current, row, last).len() ==> {
                let e = #[trigger] offered(current, row, last)[j];
                e.0 == current && e.1 != last && row.contains(e.1)
            },
        forall|y: usize|
            row.contains(y) && y != last ==> offered(current, row, last).contains((current, y)),
        row.no_duplicates() ==> forall|i: int, j: int|
            0 <= i < j < offered(current, row, last).len() ==> offered(current, row, last)[i].1
                != offered(current, row, last)[j].1,
    decreases row.len(),
{
    let new = offered(current, row, last);
    if row.len() == 0 {
        assert(stack + new =~= stack);
    } else {
        let init = row.drop_last();
        let y = row.last();
        let rest = offered(current, init, last);
        lemma_pushed(stack, current, init, last);
        lemma_pushed(Seq::empty(), current, init, last);
        if y != last {
            assert(new == rest.push((current, y)));
            assert(stack + rest.push((current, y)) =~= (stack + rest).push((current, y)));
        } else {
            assert(new == rest);
        }
        assert forall|j: int| 0 <= j < new.len() implies {
            let e = #[trigger] new[j];
            e.0 == current && e.1 != last && row.contains(e.1)
        } by {
            if j < rest.len() {
                let e = rest[j];
                assert(init.contains(e.1));
                let k = choose|k: int| 0 <= k < init.len() && init[k] == e.1;
                assert(row[k] == e.1);
            } else {
                assert(row[row.len() - 1] == y);
            }
        }
        assert forall|x: usize| row.contains(x) && x != last implies new.contains((current, x)) by {
            let k = choose|k: int| 0 <= k < row.len() && row[k] == x;
            if k < init.len() {
                assert(init[k] == x);
                assert(init.contains(x));
                assert(rest.contains((current, x)));
                let j = choose|j: int| 0 <= j < rest.len() && rest[j] == (current, x);
                assert(new[j] == (current, x));
            } else {
                assert(new[new.len() - 1] == (current, x));
            }
        }
        if row.no_duplicates() {
            assert(init.no_duplicates());
            assert forall|i: int, j: int| 0 <= i < j < new.len() implies new[i].1 != new[j].1 by {
                if j < rest.len() {
                    assert(rest[i].1 != rest[j].1);
                } else {
                    let e = rest[i];
                    assert(init.contains(e.1));
                    let k = choose|k: int| 0 <= k < init.len() && init[k] == e.1;
                    assert(row[k] != row[row.len() - 1]);
                }
            }
        }
    }
}

/// Whether the traversal that continues from the marks `visited` and the
/// work stack `stack` comes upon a marked node.
pub open spec fn search(adj: Seq<Seq<usize>>, visited: Seq<bool>, stack: Seq<(usize, usize)>) -> bool
    decreases unvisited(visited),
{
    if stack.len() == 0 {
        false
    } else {
        let (last, current) = stack.last();
        if current >= visited.len() || current >= adj.len() || visited[current as int] {
            true
        } else {
            proof {
                lemma_unvisited_mark(visited, current as int);
            }
            search(
                adj,
                visited.update(current as int, true),
                pushed(stack.drop_last(), current, adj[current as int], last),
            )
        }
    }
}

/// No node marked.
pub open spec fn unmarked(n: nat) -> Seq<bool> {
    Seq::new(n, |i: int| false)
}

/// Whether the traversal from `start` reports a cycle.
pub open spec fn cycle_from(adj: Seq<Seq<usize>>, start: usize) -> bool {
    search(adj, unmarked(adj.len()), seq![(start, start)])
}

/// Whether the traversal from some node reports a cycle.
pub open spec fn cyclic(adj: Seq<Seq<usize>>) -> bool {
    exists|start: usize| start < adj.len() && #[trigger] cycle_from(adj, start)
}

/// Runs the traversal from `start` over the adjacency lists.
pub fn rows_have_cycle_from(adjacencies: &Vec<Vec<usize>>, start: usize) -> (found: bool)
    requires
        in_range(rows(adjacencies@)),
        start < adjacencies.len(),
    ensures
        found == cycle_from(rows(adjacencies@), start),
{
    let n: usize = adjacencies.len();
    let ghost adj = rows(adjacencies@);
    let mut visited: Vec<bool> = vec![false; n];
    let mut queue: Vec<(usize, usize)> = Vec::new();
    queue.push((start, start));
    proof {
        assert(visited@ =~= unmarked(n as nat));
        assert(queue@ =~= seq![(start, start)]);
    }
    loop
        invariant
            adj == rows(adjacencies@),
            in_range(adj),
            visited.len() == adjacencies.len(),
            forall|i: int| 0 <= i < queue.len() ==> (#[trigger] queue@[i]).1 < adjacencies.len(),
            search(adj, visited@, queue@) == cycle_from(adj, start),
        decreases unvisited(visited@),
    {
        let ghost before = queue@;
        let ghost marks = visited@;
        match queue.pop() {
            None => {
                return false;
            },
            Some((last, current)) => {
                assert(before.last() == (last, current));
                assert(queue@ == before.drop_last());
                if visited[current] {
                    return true;
                }
                visited[current] = true;
                proof {
                    lemma_unvisited_mark(marks, current as int);
                }
                let row = &adjacencies[current];
                let ghost base = queue@;
                let mut k: usize = 0;
                proof {
                    assert(row@.take(0) =~= Seq::<usize>::empty());
                    assert(adj[current as int] == row@);
                }
                while k < row.len()
                    invariant
                        k <= row.len(),
                        adj == rows(adjacencies@),
                        in_range(adj),
                        current < adjacencies.len(),
                        row@ == adj[current as int],
                        queue@ == pushed(base, current, row@.take(k as int), last),
                        forall|i: int|
                            0 <= i < queue.len() ==> (#[trigger] queue@[i]).1 < adjacencies.len(),
                    decreases row.len() - k,
                {
                    proof {
                        assert(row@.take(k + 1).drop_last() =~= row@.take(k as int));
                        assert(adj[current as int][k as int] < adj.len());
                    }
                    if row[k] != last {
                        queue.push((current, row[k]));
                    }
                    k += 1;
                }
                proof {
                    assert(row@.take(k as int) =~= row@);
                }
            },
        }
    }
}

/// Runs the traversal from every node in turn.
pub fn rows_have_cycle(adjacencies: &Vec<Vec<usize>>) -> (found: bool)
    requires
        in_range(rows(adjacencies@)),
    ensures
        found == cyclic(rows(adjacencies@)),
{
    let mut i: usize = 0;
    while i < adjacencies.len()
        invariant
            i <= adjacencies.len(),
            in_range(rows(adjacencies@)),
            forall|s: usize| s < i ==> !#[trigger] cycle_from(rows(adjacencies@), s),
        decreases adjacencies.len() - i,
    {
        if rows_have_cycle_from(adjacencies, i) {
            return true;
        }
        i += 1;
    }
    false
}

} // verus!
