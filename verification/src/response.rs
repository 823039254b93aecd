//! What a node answers to an event.

use vstd::prelude::*;

verus! {

/// What handling an event did to a node.
#[derive(Clone, Copy, Debug, PartialEq, Eq, Structural)]
pub enum Response {
    /// Nothing that the caller has to know of.
    Nothing,
    /// The node was picked as the first end of an edge.
    RightClicked,
    /// The node was taken hold of, or carried along.
    Dragging,
    /// The node was picked as the second end: the edge between these two
    /// nodes is to be toggled.
    NewVertex(usize, usize),
}

} // verus!
