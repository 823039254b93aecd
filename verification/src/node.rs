//! A node of the graph: a disc with an identity and a drag state.

use vstd::prelude::*;
use crate::circle::{Circle, DEFAULT_RADIUS};
use crate::event::{Event, PointerButton};
use crate::geometry::{moved, Pos2, Vec2};
use crate::response::Response;
use crate::state::State;
use crate::vertex::TemporaryVertex;

verus! {

/// A positioned, draggable, hit-testable point.
///
/// Inside a graph `id` is the node's index. While the node is dragged,
/// `drag_start` is where the pointer was when the node last moved.
#[derive(Clone, Copy, Debug, PartialEq, Eq, Structural)]
pub struct Node {
    pub id: usize,
    pub is_dragging: bool,
    pub drag_start: Pos2,
    pub circle: Circle,
}

impl Node {
    /// A resting node with the default radius.
    pub open spec fn fresh(id: usize, pos: Pos2) -> Node {
        Node {
            id,
            is_dragging: false,
            drag_start: Pos2 { x: 0, y: 0 },
            circle: Circle { center: pos, radius: DEFAULT_RADIUS },
        }
    }

    /// The node with its centre at `pos`.
    pub open spec fn moved_to(self, pos: Pos2) -> Node {
        Node { circle: Circle { center: pos, radius: self.circle.radius }, ..self }
    }

    /// The node with radius `radius`.
    pub open spec fn resized(self, radius: u32) -> Node {
        Node { circle: Circle { center: self.circle.center, radius }, ..self }
    }

    /// The node moved by `delta`.
    pub open spec fn moved_by(self, delta: Vec2) -> Node {
        self.moved_to(moved(self.circle.center, delta))
    }

    /// The node after the pointer that drags it has moved to `pos`: it is
    /// carried along by as much as the pointer moved since `drag_start`.
    pub open spec fn dragged_to(self, pos: Pos2) -> Node {
        let by = Vec2 {
            x: (pos.x - self.drag_start.x) as i64,
            y: (pos.y - self.drag_start.y) as i64,
        };
        Node { drag_start: pos, ..self.moved_by(by) }
    }

    /// The node after it has followed `event`.
    pub open spec fn followed(self, event: Event) -> Node {
        Node { circle: self.circle.followed(event), ..self }
    }

    /// The node taken hold of at `pos`.
    pub open spec fn grabbed(self, pos: Pos2) -> Node {
        Node { is_dragging: true, drag_start: pos, ..self }
    }

    /// The node let go.
    pub open spec fn dropped(self) -> Node {
        Node { is_dragging: false, ..self }
    }

    /// The node pressed at `pos`.
    pub open spec fn pressed(self, pos: Pos2) -> Node {
        Node { drag_start: pos, ..self }
    }

    /// What dragging makes of the node, the state of the editor and
    /// `event`: the node and the state that the event leaves.
    ///
    /// An idle editor takes hold of the node when the primary button goes
    /// down on it. While the editor drags, the node is carried along with
    /// the pointer if it is held, and let go when the primary button goes
    /// up, which leaves the editor idle.
    pub open spec fn after_drag_event(self, event: Event, state: State) -> (Node, State) {
        match state {
            State::Idle => match event.pressed_at(PointerButton::Primary) {
                Some(pos) => if self.circle.covers(pos) {
                    (self.grabbed(pos), State::Dragging)
                } else {
                    (self, state)
                },
                None => (self, state),
            },
            State::Dragging => if !self.is_dragging {
                (self, state)
            } else {
                match event.moved_to() {
                    Some(pos) => (self.dragged_to(pos), state),
                    None => if event.is_release_of(PointerButton::Primary) {
                        (self.dropped(), State::Idle)
                    } else {
                        (self, state)
                    },
                }
            },
            _ => (self, state),
        }
    }

    /// Whether `event` picks the node as the first end of an edge.
    pub open spec fn picked_first(self, event: Event, state: State) -> bool {
        state == State::Idle && match event.pressed_at(PointerButton::Secondary) {
            Some(pos) => self.circle.covers(pos),
            None => false,
        }
    }

    /// Whether `event` picks the node as the second end of an edge.
    pub open spec fn picked_second(self, event: Event, state: State) -> bool {
        state == State::RightClicked && match event.pressed_at(PointerButton::Secondary) {
            Some(pos) => self.circle.covers(pos),
            None => false,
        }
    }

    /// The node that `event` leaves while edges are edited.
    pub open spec fn after_event(self, event: Event, state: State) -> Node {
        if self.picked_first(event, state) {
            self.pressed(event.pressed_at(PointerButton::Secondary).unwrap())
        } else if self.picked_second(event, state) {
            self
        } else {
            self.after_drag_event(event, state).0
        }
    }

    /// The state of the editor that `event` leaves while edges are edited.
    pub open spec fn state_after_event(self, event: Event, state: State) -> State {
        if self.picked_first(event, state) {
            State::RightClicked
        } else if self.picked_second(event, state) {
            State::Idle
        } else {
            self.after_drag_event(event, state).1
        }
    }

    /// The selection that `event` leaves: picked as the first end, the node
    /// becomes both ends; picked as the second end, it becomes the second.
    pub open spec fn selection_after_event(
        self,
        event: Event,
        state: State,
        selection: TemporaryVertex,
    ) -> TemporaryVertex {
        if self.picked_first(event, state) {
            let node = self.after_event(event, state);
            selection.with_first(node).with_second(node)
        } else if self.picked_second(event, state) {
            selection.with_second(self)
        } else {
            selection
        }
    }

    /// What the node answers to `event`.
    pub open spec fn response_to(self, event: Event, state: State, selection: TemporaryVertex) -> Response {
        if self.picked_first(event, state) {
            Response::RightClicked
        } else if self.picked_second(event, state) {
            Response::NewVertex(selection.node_selected_id1.unwrap(), self.id)
        } else if state == State::Idle && self.after_drag_event(event, state).1 == State::Dragging {
            Response::Dragging
        } else if state == State::Dragging && self.is_dragging && event.moved_to() is Some {
            Response::Dragging
        } else {
            Response::Nothing
        }
    }

    /// A circle node at `pos`; without an `id` it is numbered 0.
    pub fn new_circle_node(id: Option<usize>, pos: Pos2) -> (n: Node)
        ensures
            n == Node::fresh(
                match id {
                    Some(i) => i,
                    None => 0,
                },
                pos,
            ),
    {
        Node {
            id: id.unwrap_or(0),
            is_dragging: false,
            drag_start: Pos2::zero(),
            circle: Circle::new(pos),
        }
    }

    pub fn pos(&self) -> (p: Pos2)
        ensures
            p == self.circle.center,
    {
        self.circle.center()
    }

    pub fn id(&self) -> (i: usize)
        ensures
            i == self.id,
    {
        self.id
    }

    pub fn is_dragging(&self) -> (d: bool)
        ensures
            d == self.is_dragging,
    {
        self.is_dragging
    }

    pub fn drag_start(&self) -> (p: Pos2)
        ensures
            p == self.drag_start,
    {
        self.drag_start
    }

    pub fn radius(&self) -> (r: u32)
        ensures
            r == self.circle.radius,
    {
        self.circle.radius()
    }

    pub fn set_pos(&mut self, pos: Pos2) -> (r: &mut Self)
        ensures
            *r == old(self).moved_to(pos),
            *final(self) == *final(r),
    {
        self.circle.set_center(pos);
        self
    }

    /// Moves the node by `delta`. Nothing keeps it from another node or
    /// inside any bounds; at the end of the plane it stops.
    pub fn move_by(&mut self, delta: Vec2)
        ensures
            *final(self) == old(self).moved_by(delta),
    {
        let target = self.pos().plus(delta);
        self.set_pos(target);
    }

    pub fn set_radius(&mut self, radius: u32) -> (r: &mut Self)
        ensures
            *r == old(self).resized(radius),
            *final(self) == *final(r),
    {
        self.circle.set_radius(radius);
        self
    }

    pub fn set_is_dragging(&mut self, is_dragging: bool)
        ensures
            *final(self) == (Node { is_dragging, ..*old(self) }),
    {
        self.is_dragging = is_dragging;
    }

    pub fn set_drag_start(&mut self, drag_start: Pos2)
        ensures
            *final(self) == (Node { drag_start, ..*old(self) }),
    {
        self.drag_start = drag_start;
    }

    /// Hit test: whether `pos` is strictly closer to the centre than the
    /// radius.
    pub fn contains(&self, pos: Pos2) -> (hit: bool)
        ensures
            hit == self.circle.covers(pos),
    {
        self.circle.contains(pos)
    }

    /// Lets the node take part in dragging: see `after_drag_event`.
    pub fn handle_event(&mut self, event: &Event, state: &mut State)
        ensures
            (*final(self), *final(state)) == old(self).after_drag_event(*event, *old(state)),
    {
        match state {
            State::Idle => {
                if let Event::PointerButton { pos, button, pressed } = event {
                    if *pressed {
                        if let PointerButton::Primary = button {
                            if self.contains(*pos) {
                                self.is_dragging = true;
                                self.drag_start = *pos;
                                *state = State::Dragging;
                            }
                        }
                    }
                }
            },
            State::Dragging => {
                match event {
                    Event::PointerMoved(pos) => {
                        if self.is_dragging {
                            let delta = pos.minus(self.drag_start);
                            self.move_by(delta);
                            self.drag_start = *pos;
                        }
                    },
                    Event::PointerButton { pos, button, pressed } => {
                        if !*pressed {
                            if let PointerButton::Primary = button {
                                if self.is_dragging {
                                    self.is_dragging = false;
                                    *state = State::Idle;
                                }
                            }
                        }
                    },
                    _ => {},
                }
            },
            _ => {},
        }
    }

    /// Lets the node take part in dragging and in picking the ends of an
    /// edge. When the node is picked as the second end, the answer names the
    /// two ends; toggling the edge is left to the caller.
    pub fn handle_event_graph(
        &mut self,
        event: &Event,
        state: &mut State,
        new_vertex: &mut TemporaryVertex,
    ) -> (response: Response)
        requires
            *old(state) == State::RightClicked ==> old(new_vertex).node_selected_id1 is Some,
        ensures
            *final(self) == old(self).after_event(*event, *old(state)),
            *final(state) == old(self).state_after_event(*event, *old(state)),
            *final(new_vertex) == old(self).selection_after_event(
                *event,
                *old(state),
                *old(new_vertex),
            ),
            response == old(self).response_to(*event, *old(state), *old(new_vertex)),
    {
        if let Event::PointerButton { pos, button, pressed } = event {
            if *pressed {
                if let PointerButton::Secondary = button {
                    match state {
                        State::Idle => {
                            if self.contains(*pos) {
                                self.drag_start = *pos;
                                *state = State::RightClicked;
                                new_vertex.select_first(*self);
                                new_vertex.select_second(*self);
                                return Response::RightClicked;
                            }
                        },
                        State::RightClicked => {
                            if self.contains(*pos) {
                                *state = State::Idle;
                                let first = new_vertex.node_selected_id1.unwrap();
                                new_vertex.select_second(*self);
                                return Response::NewVertex(first, self.id);
                            }
                        },
                        _ => {},
                    }
                }
            }
        }
        let response = match state {
            State::Idle => match event {
                Event::PointerButton { pos, button, pressed } => if *pressed && self.contains(*pos) {
                    match button {
                        PointerButton::Primary => Response::Dragging,
                        _ => Response::Nothing,
                    }
                } else {
                    Response::Nothing
                },
                _ => Response::Nothing,
            },
            State::Dragging => match event {
                Event::PointerMoved(pos) => if self.is_dragging {
                    Response::Dragging
                } else {
                    Response::Nothing
                },
                _ => Response::Nothing,
            },
            _ => Response::Nothing,
        };
        self.handle_event(event, state);
        response
    }

    /// Moves the node to where a pointer move reports the pointer.
    pub fn follow_mouse(&mut self, event: &Event)
        ensures
            *final(self) == old(self).followed(*event),
    {
        self.circle.follow_mouse(event);
    }
}

/// A resting node numbered `id` at `pos`.
pub fn pos2_to_node(id: usize, pos: Pos2) -> (n: Node)
    ensures
        n == Node::fresh(id, pos),
{
    Node { id, is_dragging: false, drag_start: Pos2::zero(), circle: Circle::new(pos) }
}

} // verus!
