//! Edges, and the edge that is being drawn.

use vstd::prelude::*;
use crate::node::Node;

verus! {

/// An edge, given by the two nodes it joins.
#[derive(Clone, Copy, Debug, PartialEq, Eq, Structural)]
pub struct Vertex {
    pub node_id1: usize,
    pub node_id2: usize,
}

impl Vertex {
    pub fn new(node_id1: usize, node_id2: usize) -> (v: Vertex)
        ensures
            v == (Vertex { node_id1, node_id2 }),
    {
        Vertex { node_id1, node_id2 }
    }

    pub fn node_id1(&self) -> (i: usize)
        ensures
            i == self.node_id1,
    {
        self.node_id1
    }

    pub fn node_id2(&self) -> (i: usize)
        ensures
            i == self.node_id2,
    {
        self.node_id2
    }
}

/// The selection of an edge gesture in progress.
///
/// `node_selected_id1` and `node_selected_id2` name the nodes picked so far.
/// `node1` and `node2` are stand-ins placed where the picked nodes were, kept
/// so that the edge can be shown before it exists; they belong to no graph.
#[derive(Clone, Copy, Debug, PartialEq, Eq, Structural)]
pub struct TemporaryVertex {
    pub node_selected_id1: Option<usize>,
    pub node_selected_id2: Option<usize>,
    pub node1: Option<Node>,
    pub node2: Option<Node>,
}

impl Default for TemporaryVertex {
    fn default() -> (t: TemporaryVertex)
        ensures
            t == TemporaryVertex::empty(),
    {
        TemporaryVertex {
            node_selected_id1: None,
            node_selected_id2: None,
            node1: None,
            node2: None,
        }
    }
}

impl TemporaryVertex {
    /// The selection with nothing picked.
    pub open spec fn empty() -> TemporaryVertex {
        TemporaryVertex {
            node_selected_id1: None,
            node_selected_id2: None,
            node1: None,
            node2: None,
        }
    }

    /// The selection after `node` was picked as its first end.
    pub open spec fn with_first(self, node: Node) -> TemporaryVertex {
        TemporaryVertex {
            node_selected_id1: Some(node.id),
            node1: Some(Node::fresh(0, node.circle.center)),
            ..self
        }
    }

    /// The selection after `node` was picked as its second end.
    pub open spec fn with_second(self, node: Node) -> TemporaryVertex {
        TemporaryVertex {
            node_selected_id2: Some(node.id),
            node2: Some(Node::fresh(0, node.circle.center)),
            ..self
        }
    }

    /// The stand-in for the first end, to be changed in place.
    pub fn first_mut(&mut self) -> (r: Option<&mut Node>)
        ensures
            match r {
                Some(n) => old(self).node1 == Some(*n) && *final(self) == (TemporaryVertex {
                    node1: Some(*final(n)),
                    ..*old(self)
                }),
                None => old(self).node1 is None && *final(self) == *old(self),
            },
    {
        match &mut self.node1 {
            Some(n) => Some(n),
            None => None,
        }
    }

    /// The stand-in for the second end, to be changed in place.
    pub fn second_mut(&mut self) -> (r: Option<&mut Node>)
        ensures
            match r {
                Some(n) => old(self).node2 == Some(*n) && *final(self) == (TemporaryVertex {
                    node2: Some(*final(n)),
                    ..*old(self)
                }),
                None => old(self).node2 is None && *final(self) == *old(self),
            },
    {
        match &mut self.node2 {
            Some(n) => Some(n),
            None => None,
        }
    }

    pub fn first_is_some(&self) -> (b: bool)
        ensures
            b == self.node1.is_some(),
    {
        self.node1.is_some()
    }

    /// Picks `node` as the first end.
    pub fn select_first(&mut self, node: Node)
        ensures
            *final(self) == old(self).with_first(node),
    {
        self.node_selected_id1 = Some(node.id());
        self.node1 = Some(Node::new_circle_node(Some(0), node.pos()));
    }

    /// Picks `node` as the second end.
    pub fn select_second(&mut self, node: Node)
        ensures
            *final(self) == old(self).with_second(node),
    {
        self.node_selected_id2 = Some(node.id());
        self.node2 = Some(Node::new_circle_node(Some(0), node.pos()));
    }
}

} // verus!
