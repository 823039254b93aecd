//! The edit state machine, as a function from a graph and an event to the
//! graph that the event leaves.
//!
//! A press is addressed to the lowest-numbered node whose disc contains the
//! pointer. The primary button drags a node. The secondary button picks a
//! node and, on a second node, toggles the edge between the two. While nodes
//! are added, a node that is yet to be placed follows the pointer and the
//! `A` key commits it.

use vstd::prelude::*;
use crate::adjacency::{
    after_toggle, lemma_after_toggle_in_range, lemma_after_toggle_keeps, lemma_after_toggle_simple,
    lemma_push_empty_row, loop_free, no_parallel, symmetric,
};
use crate::event::{Event, Key, PointerButton};
use crate::geometry::Pos2;
use crate::graph::{lemma_with_node_valid, GraphView};
use crate::node::Node;
use crate::response::Response;
use crate::state::State;
use crate::vertex::TemporaryVertex;

verus! {

/// Whether `k` is the lowest-numbered node whose disc contains `pos`.
pub open spec fn is_first_hit(nodes: Seq<Node>, pos: Pos2, k: int) -> bool {
    &&& 0 <= k < nodes.len()
    &&& nodes[k].circle.covers(pos)
    &&& forall|j: int| 0 <= j < k ==> !(#[trigger] nodes[j]).circle.covers(pos)
}

/// The node that a press at `pos` is addressed to.
pub open spec fn first_hit(nodes: Seq<Node>, pos: Pos2) -> Option<usize> {
    if exists|k: int| is_first_hit(nodes, pos, k) {
        Some((choose|k: int| is_first_hit(nodes, pos, k)) as usize)
    } else {
        None
    }
}

/// Whether `k` is the lowest-numbered node that is being dragged.
pub open spec fn is_first_dragging(nodes: Seq<Node>, k: int) -> bool {
    &&& 0 <= k < nodes.len()
    &&& nodes[k].is_dragging
    &&& forall|j: int| 0 <= j < k ==> !(#[trigger] nodes[j]).is_dragging
}

/// The node that a release lets go of.
pub open spec fn first_dragging(nodes: Seq<Node>) -> Option<usize> {
    if exists|k: int| is_first_dragging(nodes, k) {
        Some((choose|k: int| is_first_dragging(nodes, k)) as usize)
    } else {
        None
    }
}

/// The stand-in `node` after it has followed `event`.
pub open spec fn followed(node: Option<Node>, event: Event) -> Option<Node> {
    match node {
        Some(n) => Some(n.followed(event)),
        None => None,
    }
}

/// The stand-in `node` with radius `radius`.
pub open spec fn resized(node: Option<Node>, radius: u32) -> Option<Node> {
    match node {
        Some(n) => Some(n.resized(radius)),
        None => None,
    }
}

impl GraphView {
    /// Node `k` is taken hold of at `pos`.
    pub open spec fn grab(self, k: usize, pos: Pos2) -> GraphView {
        GraphView {
            nodes: self.nodes.update(k as int, self.nodes[k as int].grabbed(pos)),
            state: State::Dragging,
            ..self
        }
    }

    /// Every node that is being dragged is carried along to `pos`.
    pub open spec fn drag(self, pos: Pos2) -> GraphView {
        GraphView {
            nodes: Seq::new(
                self.nodes.len(),
                |i: int|
                    if self.nodes[i].is_dragging {
                        self.nodes[i].dragged_to(pos)
                    } else {
                        self.nodes[i]
                    },
            ),
            ..self
        }
    }

    /// The lowest-numbered dragged node is let go and the editor is idle.
    pub open spec fn release(self) -> GraphView {
        GraphView {
            nodes: match first_dragging(self.nodes) {
                Some(k) => self.nodes.update(k as int, self.nodes[k as int].dropped()),
                None => self.nodes,
            },
            state: State::Idle,
            ..self
        }
    }

    /// Node `k`, pressed at `pos`, becomes both ends of the selection.
    pub open spec fn pick_first(self, k: usize, pos: Pos2) -> GraphView {
        let node = self.nodes[k as int].pressed(pos);
        GraphView {
            nodes: self.nodes.update(k as int, node),
            state: State::RightClicked,
            new_vertex: self.new_vertex.with_first(node).with_second(node),
            ..self
        }
    }

    /// Node `k` becomes the second end: the edge between the first end and
    /// `k` is toggled, the selection is emptied and the editor is idle.
    pub open spec fn pick_second(self, k: usize) -> GraphView {
        GraphView {
            adjacencies: after_toggle(
                self.adjacencies,
                self.new_vertex.node_selected_id1.unwrap(),
                k,
            ),
            state: State::Idle,
            new_vertex: TemporaryVertex::empty(),
            ..self
        }
    }

    /// What the pointer gestures make of `event`.
    pub open spec fn after_gesture(self, event: Event) -> GraphView {
        match self.state {
            State::Idle => match event.pressed_at(PointerButton::Primary) {
                Some(pos) => match first_hit(self.nodes, pos) {
                    Some(k) => self.grab(k, pos),
                    None => self,
                },
                None => match event.pressed_at(PointerButton::Secondary) {
                    Some(pos) => match first_hit(self.nodes, pos) {
                        Some(k) => self.pick_first(k, pos),
                        None => self,
                    },
                    None => self,
                },
            },
            State::Dragging => match event.moved_to() {
                Some(pos) => self.drag(pos),
                None => if event.is_release_of(PointerButton::Primary) {
                    self.release()
                } else {
                    self
                },
            },
            State::RightClicked => match event.pressed_at(PointerButton::Secondary) {
                Some(pos) => match first_hit(self.nodes, pos) {
                    Some(k) => self.pick_second(k),
                    None => self,
                },
                None => self,
            },
            State::AddNode => self,
        }
    }

    /// What the pointer gestures make of `event`, but for the edge: where a
    /// second end was picked, toggling the edge is still to be done.
    pub open spec fn after_handling(self, event: Event) -> GraphView {
        GraphView { adjacencies: self.adjacencies, ..self.after_gesture(event) }
    }

    /// What the nodes answer to `event`: a press is answered by the node
    /// that it is addressed to, a pointer move by the nodes that are
    /// dragged.
    pub open spec fn response_to(self, event: Event) -> Response {
        match event {
            Event::PointerButton { pos, button, pressed: true } => match first_hit(self.nodes, pos) {
                Some(k) => self.nodes[k as int].response_to(event, self.state, self.new_vertex),
                None => Response::Nothing,
            },
            Event::PointerMoved(pos) => if self.state == State::Dragging && first_dragging(
                self.nodes,
            ) is Some {
                Response::Dragging
            } else {
                Response::Nothing
            },
            _ => Response::Nothing,
        }
    }

    /// The stand-in for the first end and the node that is being placed
    /// follow the pointer.
    pub open spec fn after_preview(self, event: Event) -> GraphView {
        GraphView {
            new_vertex: TemporaryVertex {
                node1: followed(self.new_vertex.node1, event),
                ..self.new_vertex
            },
            new_node: followed(self.new_node, event),
            ..self
        }
    }

    /// The `A` key going down places a node where the node that is being
    /// placed stands; that node stays where it is.
    pub open spec fn after_commit(self, event: Event) -> GraphView {
        match self.new_node {
            Some(n) => if event.is_key_press(Key::A) {
                self.with_node(n.circle.center)
            } else {
                self
            },
            None => self,
        }
    }

    /// The graph that `event` leaves.
    pub open spec fn after(self, event: Event) -> GraphView {
        self.after_gesture(event).after_preview(event).after_commit(event)
    }

    /// Every node, and every stand-in, with radius `radius`.
    pub open spec fn with_radius(self, radius: u32) -> GraphView {
        GraphView {
            nodes: Seq::new(self.nodes.len(), |i: int| self.nodes[i].resized(radius)),
            new_vertex: TemporaryVertex {
                node1: resized(self.new_vertex.node1, radius),
                node2: resized(self.new_vertex.node2, radius),
                ..self.new_vertex
            },
            new_node: resized(self.new_node, radius),
            ..self
        }
    }

    /// Adding nodes begins: a node to be placed appears, and a selection
    /// that awaits its second end is given up.
    pub open spec fn adding(self) -> GraphView {
        GraphView {
            new_node: Some(Node::fresh(0, Pos2 { x: 200, y: 400 })),
            new_vertex: TemporaryVertex::empty(),
            state: State::AddNode,
            ..self
        }
    }

    /// Adding nodes ends: the editor is idle, without a node to be placed
    /// and without a selection.
    pub open spec fn not_adding(self) -> GraphView {
        GraphView {
            new_node: None,
            new_vertex: TemporaryVertex::empty(),
            state: State::Idle,
            ..self
        }
    }
}

/// At most one node is the first hit, and it fits a node id.
pub proof fn lemma_first_hit(nodes: Seq<Node>, pos: Pos2, k: int)
    requires
        is_first_hit(nodes, pos, k),
        nodes.len() <= usize::MAX,
    ensures
        first_hit(nodes, pos) == Some(k as usize),
{
    let c = choose|c: int| is_first_hit(nodes, pos, c);
    if c < k {
        assert(!nodes[c].circle.covers(pos));
    } else if k < c {
        assert(!nodes[k].circle.covers(pos));
    }
}

/// At most one node is the first that is being dragged.
pub proof fn lemma_first_dragging(nodes: Seq<Node>, k: int)
    requires
        is_first_dragging(nodes, k),
        nodes.len() <= usize::MAX,
    ensures
        first_dragging(nodes) == Some(k as usize),
{
    let c = choose|c: int| is_first_dragging(nodes, c);
    if c < k {
        assert(!nodes[c].is_dragging);
    } else if k < c {
        assert(!nodes[k].is_dragging);
    }
}

/// The answer of the nodes tells which edge the gestures toggle: the edge
/// between the two ends if a second end was picked, and none otherwise.
pub proof fn lemma_response_names_edge(g: GraphView, event: Event)
    requires
        g.valid(),
    ensures
        g.after_gesture(event).adjacencies == match g.response_to(event) {
            Response::NewVertex(a, b) => after_toggle(g.adjacencies, a, b),
            _ => g.adjacencies,
        },
        match g.response_to(event) {
            Response::NewVertex(a, b) => a < g.nodes.len() && b < g.nodes.len(),
            _ => true,
        },
{
    match event {
        Event::PointerButton { pos, button, pressed } => {
            if pressed {
                if let Some(k) = first_hit(g.nodes, pos) {
                    let c = choose|c: int| is_first_hit(g.nodes, pos, c);
                    assert(is_first_hit(g.nodes, pos, c));
                }
            }
        },
        _ => {},
    }
}

/// The pointer gestures and the stand-ins that follow the pointer leave a
/// valid graph valid and a simple graph simple, with as many nodes as
/// before.
pub proof fn lemma_after_preview_valid(g: GraphView, event: Event)
    requires
        g.valid(),
    ensures
        g.after_gesture(event).after_preview(event).valid(),
        g.after_gesture(event).after_preview(event).nodes.len() == g.nodes.len(),
        g.is_simple() ==> g.after_gesture(event).after_preview(event).is_simple(),
{
    let n = g.nodes.len();
    let h = g.after_gesture(event);
    assert(h.valid() && h.nodes.len() == n && (g.is_simple() ==> h.is_simple())) by {
        match g.state {
            State::Idle => {
                match event.pressed_at(PointerButton::Primary) {
                    Some(pos) => {
                        if let Some(k) = first_hit(g.nodes, pos) {
                            let c = choose|c: int| is_first_hit(g.nodes, pos, c);
                            assert(is_first_hit(g.nodes, pos, c));
                        }
                    },
                    None => {
                        if let Some(pos) = event.pressed_at(PointerButton::Secondary) {
                            if let Some(k) = first_hit(g.nodes, pos) {
                                let c = choose|c: int| is_first_hit(g.nodes, pos, c);
                                assert(is_first_hit(g.nodes, pos, c));
                            }
                        }
                    },
                }
            },
            State::Dragging => {
                if event.moved_to() is None && event.is_release_of(PointerButton::Primary) {
                    if let Some(k) = first_dragging(g.nodes) {
                        let c = choose|c: int| is_first_dragging(g.nodes, c);
                        assert(is_first_dragging(g.nodes, c));
                    }
                }
            },
            State::RightClicked => {
                if let Some(pos) = event.pressed_at(PointerButton::Secondary) {
                    if let Some(k) = first_hit(g.nodes, pos) {
                        let c = choose|c: int| is_first_hit(g.nodes, pos, c);
                        assert(is_first_hit(g.nodes, pos, c));
                        lemma_after_toggle_in_range(
                            g.adjacencies,
                            g.new_vertex.node_selected_id1.unwrap(),
                            k,
                        );
                        if g.is_simple() {
                            lemma_after_toggle_simple(
                                g.adjacencies,
                                g.new_vertex.node_selected_id1.unwrap(),
                                k,
                            );
                        }
                    }
                }
            },
            State::AddNode => {},
        }
    }
}

/// An event leaves a valid graph valid, and a simple graph simple.
pub proof fn lemma_after_valid(g: GraphView, event: Event)
    requires
        g.valid(),
        g.nodes.len() < usize::MAX,
    ensures
        g.after(event).valid(),
        g.is_simple() ==> g.after(event).is_simple(),
{
    lemma_after_preview_valid(g, event);
    let p = g.after_gesture(event).after_preview(event);
    if let Some(m) = p.new_node {
        if event.is_key_press(Key::A) {
            lemma_with_node_valid(p, m.circle.center);
        }
    }
}

/// An event leaves symmetric rows symmetric, and likewise rows free of
/// self-loops and rows free of parallel edges.
pub proof fn lemma_after_keeps(g: GraphView, event: Event)
    requires
        g.valid(),
        g.nodes.len() < usize::MAX,
    ensures
        symmetric(g.adjacencies) ==> symmetric(g.after(event).adjacencies),
        loop_free(g.adjacencies) ==> loop_free(g.after(event).adjacencies),
        no_parallel(g.adjacencies) ==> no_parallel(g.after(event).adjacencies),
{
    lemma_response_names_edge(g, event);
    lemma_after_preview_valid(g, event);
    if let Response::NewVertex(a, b) = g.response_to(event) {
        lemma_after_toggle_keeps(g.adjacencies, a, b);
    }
    let p = g.after_gesture(event).after_preview(event);
    lemma_push_empty_row(p.adjacencies);
}

} // verus!
