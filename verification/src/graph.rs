//! The graph store: nodes, their adjacency lists, and the edit state.

use vstd::prelude::*;
use crate::adjacency::{
    adjacent, after_add, after_remove, after_toggle, edge_count, edges, edges_upto, empty_rows,
    in_range,
    joined_all, joined_with, lemma_after_add, lemma_after_add_in_range, lemma_after_add_simple,
    lemma_after_remove_in_range, lemma_after_remove_simple, lemma_after_toggle_in_range,
    lemma_after_toggle_simple, lemma_empty_rows_simple, lemma_push_empty_row, lemma_with_edge,
    list_contains, list_remove, row_edges, rows, rows_are_simple, rows_in_range, simple,
    with_edge,
};
use crate::connectivity::component_count;
use crate::count::lemma_forest_iff_edge_count;
use crate::cycle::{cycle_from, cyclic, rows_have_cycle, rows_have_cycle_from};
use crate::editor::{
    first_dragging, first_hit, is_first_dragging, is_first_hit, lemma_after_preview_valid,
    lemma_first_dragging, lemma_first_hit, lemma_response_names_edge,
};
use crate::event::{Event, Key, PointerButton};
use crate::forest::{
    is_forest, lemma_cycle_from_iff_not_tree, lemma_cyclic_iff_not_forest, tree_at,
};
use crate::geometry::Pos2;
use crate::node::{pos2_to_node, Node};
use crate::response::Response;
use crate::state::State;
use crate::vertex::{TemporaryVertex, Vertex};

verus! {

/// A graph with its edit state.
///
/// Nodes are never removed, so a node's `id` is its index for good.
/// `max_id` is the id that the next node gets.
pub struct Graph {
    nodes: Vec<Node>,
    adjacencies: Vec<Vec<usize>>,
    max_id: usize,
    state: State,
    new_vertex: TemporaryVertex,
    new_node: Option<Node>,
}

/// What a graph is, as plain values.
pub struct GraphView {
    pub nodes: Seq<Node>,
    /// Row `a` lists the neighbours of node `a`.
    pub adjacencies: Seq<Seq<usize>>,
    pub max_id: usize,
    pub state: State,
    /// The selection of the edge gesture in progress.
    pub new_vertex: TemporaryVertex,
    /// The node that is being placed, while nodes are added.
    pub new_node: Option<Node>,
}

/// Whether `id`, if there is one, is below `n`.
pub open spec fn names_node(id: Option<usize>, n: nat) -> bool {
    match id {
        Some(a) => a < n,
        None => true,
    }
}

/// Resting nodes numbered from 0 at the given positions.
pub open spec fn fresh_nodes(positions: Seq<Pos2>) -> Seq<Node> {
    Seq::new(positions.len(), |i: int| Node::fresh(i as usize, positions[i]))
}

impl GraphView {
    /// What every operation needs and keeps: one row per node, every node
    /// numbered by its index, every entry of a row the number of a node, and
    /// a selection that names existing nodes, has a first end while the
    /// second is awaited and is empty otherwise.
    pub open spec fn valid(self) -> bool {
        &&& self.nodes.len() == self.adjacencies.len()
        &&& self.nodes.len() == self.max_id
        &&& forall|i: int| 0 <= i < self.nodes.len() ==> (#[trigger] self.nodes[i]).id == i
        &&& in_range(self.adjacencies)
        &&& names_node(self.new_vertex.node_selected_id1, self.nodes.len())
        &&& names_node(self.new_vertex.node_selected_id2, self.nodes.len())
        &&& self.state == State::RightClicked ==> self.new_vertex.node_selected_id1 is Some
        &&& self.state != State::RightClicked ==> self.new_vertex == TemporaryVertex::empty()
    }

    /// Whether the rows are those of a simple undirected graph: symmetric,
    /// without self-loops and without parallel edges. A graph that starts
    /// out empty, or from such rows, stays so under every operation.
    pub open spec fn is_simple(self) -> bool {
        simple(self.adjacencies)
    }

    /// The graph without a node.
    pub open spec fn empty() -> GraphView {
        GraphView {
            nodes: Seq::empty(),
            adjacencies: Seq::empty(),
            max_id: 0,
            state: State::Idle,
            new_vertex: TemporaryVertex::empty(),
            new_node: None,
        }
    }

    /// The graph on these nodes and rows, with nothing in progress.
    pub open spec fn from_parts(nodes: Seq<Node>, adjacencies: Seq<Seq<usize>>) -> GraphView {
        GraphView {
            nodes,
            adjacencies,
            max_id: nodes.len() as usize,
            state: State::Idle,
            new_vertex: TemporaryVertex::empty(),
            new_node: None,
        }
    }

    /// The graph with one more node, at `pos`, without neighbours.
    pub open spec fn with_node(self, pos: Pos2) -> GraphView {
        GraphView {
            nodes: self.nodes.push(Node::fresh(self.max_id, pos)),
            adjacencies: self.adjacencies.push(Seq::empty()),
            max_id: (self.max_id + 1) as usize,
            ..self
        }
    }

    /// The graph with other rows.
    pub open spec fn with_rows(self, adjacencies: Seq<Seq<usize>>) -> GraphView {
        GraphView { adjacencies, ..self }
    }

    /// The same nodes without an edge and with nothing in progress.
    pub open spec fn without_edges(self) -> GraphView {
        GraphView {
            nodes: self.nodes,
            adjacencies: empty_rows(self.nodes.len()),
            max_id: self.max_id,
            state: State::Idle,
            new_vertex: TemporaryVertex::empty(),
            new_node: None,
        }
    }
}

impl View for Graph {
    type V = GraphView;

    closed spec fn view(&self) -> GraphView {
        GraphView {
            nodes: self.nodes@,
            adjacencies: rows(self.adjacencies@),
            max_id: self.max_id,
            state: self.state,
            new_vertex: self.new_vertex,
            new_node: self.new_node,
        }
    }
}

impl Default for Graph {
    fn default() -> (g: Graph)
        ensures
            g@ == GraphView::empty(),
            g@.valid(),
            g@.is_simple(),
    {
        let g = Graph {
            nodes: Vec::new(),
            adjacencies: Vec::new(),
            max_id: 0,
            state: State::Idle,
            new_vertex: TemporaryVertex::default(),
            new_node: None,
        };
        assert(g@.adjacencies =~= Seq::empty());
        g
    }
}

impl Graph {
    /// The graph on `nodes` whose rows are `adjacencies`, one row for each
    /// node. It is valid if the nodes are numbered by their indices and
    /// every entry of a row is the number of a node.
    pub fn new(nodes: Vec<Node>, adjacencies: Vec<Vec<usize>>) -> (g: Graph)
        requires
            adjacencies.len() == nodes.len(),
        ensures
            g@ == GraphView::from_parts(nodes@, rows(adjacencies@)),
            g@.valid() <==> in_range(rows(adjacencies@)) && forall|i: int|
                0 <= i < nodes.len() ==> (#[trigger] nodes@[i]).id == i,
    {
        let max_id = nodes.len();
        Graph {
            nodes,
            adjacencies,
            max_id,
            state: State::Idle,
            new_vertex: TemporaryVertex::default(),
            new_node: None,
        }
    }

    /// The graph with a resting node at each of `positions`, in order, whose
    /// rows are `adjacencies`, one row for each position. It is valid if every
    /// entry of a row is the number of a node.
    pub fn pos2_to_graph(positions: Vec<Pos2>, adjacencies: Vec<Vec<usize>>) -> (g: Graph)
        requires
            adjacencies.len() == positions.len(),
        ensures
            g@ == GraphView::from_parts(fresh_nodes(positions@), rows(adjacencies@)),
            g@.valid() <==> in_range(rows(adjacencies@)),
    {
        let mut nodes: Vec<Node> = Vec::new();
        let mut i: usize = 0;
        while i < positions.len()
            invariant
                i <= positions.len(),
                nodes.len() == i,
                forall|k: int| 0 <= k < i ==> #[trigger] nodes@[k] == Node::fresh(k as usize, positions@[k]),
            decreases positions.len() - i,
        {
            nodes.push(pos2_to_node(i, positions[i]));
            i += 1;
        }
        assert(nodes@ =~= fresh_nodes(positions@));
        Graph::new(nodes, adjacencies)
    }

    /// Whether the graph is valid: whether the operations can be applied
    /// to it.
    pub fn is_valid(&self) -> (ok: bool)
        ensures
            ok == self@.valid(),
    {
        let n: usize = self.nodes.len();
        if self.adjacencies.len() != n || self.max_id != n {
            return false;
        }
        let mut i: usize = 0;
        while i < n
            invariant
                i <= n,
                n == self.nodes.len(),
                forall|k: int| 0 <= k < i ==> (#[trigger] self.nodes@[k]).id == k,
            decreases n - i,
        {
            if self.nodes[i].id() != i {
                return false;
            }
            i += 1;
        }
        if !rows_in_range(&self.adjacencies) {
            return false;
        }
        let first_named = match self.new_vertex.node_selected_id1 {
            Some(a) => a < n,
            None => true,
        };
        let second_named = match self.new_vertex.node_selected_id2 {
            Some(a) => a < n,
            None => true,
        };
        let awaited = match self.state {
            State::RightClicked => self.new_vertex.node_selected_id1.is_some(),
            _ => self.new_vertex == TemporaryVertex::default(),
        };
        first_named && second_named && awaited
    }

    /// Whether the rows are those of a simple undirected graph.
    pub fn is_simple(&self) -> (ok: bool)
        ensures
            ok == self@.is_simple(),
    {
        rows_are_simple(&self.adjacencies)
    }

    pub fn node_count(&self) -> (n: usize)
        ensures
            n == self@.nodes.len(),
    {
        self.nodes.len()
    }

    pub fn nodes(&self) -> (nodes: &Vec<Node>)
        ensures
            nodes@ == self@.nodes,
    {
        &self.nodes
    }

    pub fn adjacencies(&self) -> (adjacencies: &Vec<Vec<usize>>)
        ensures
            rows(adjacencies@) == self@.adjacencies,
    {
        &self.adjacencies
    }

    /// The neighbours of node `id`, in the order in which they were joined.
    pub fn neighbors(&self, id: usize) -> (row: &Vec<usize>)
        requires
            id < self@.adjacencies.len(),
        ensures
            row@ == self@.adjacencies[id as int],
    {
        &self.adjacencies[id]
    }

    pub fn position_of(&self, id: usize) -> (p: Pos2)
        requires
            id < self@.nodes.len(),
        ensures
            p == self@.nodes[id as int].circle.center,
    {
        self.nodes[id].pos()
    }

    pub fn state(&self) -> (s: State)
        ensures
            s == self@.state,
    {
        self.state
    }

    pub fn new_vertex(&self) -> (t: TemporaryVertex)
        ensures
            t == self@.new_vertex,
    {
        self.new_vertex
    }

    pub fn new_node(&self) -> (n: Option<Node>)
        ensures
            n == self@.new_node,
    {
        self.new_node
    }

    /// Appends a resting node at `pos` and returns its id.
    pub fn add_node(&mut self, pos: Pos2) -> (id: usize)
        requires
            old(self)@.valid(),
        ensures
            final(self)@ == old(self)@.with_node(pos),
            final(self)@.valid(),
            old(self)@.is_simple() ==> final(self)@.is_simple(),
            id == old(self)@.max_id,
    {
        let id = self.max_id;
        self.nodes.push(pos2_to_node(id, pos));
        self.max_id = self.nodes.len();
        self.adjacencies.push(Vec::new());
        proof {
            let before = old(self)@;
            let after = self@;
            assert(after.adjacencies =~= before.adjacencies.push(Seq::empty()));
            lemma_with_node_valid(before, pos);
        }
        id
    }

    /// Joins `id1` and `id2` in the adjacency lists, unless they are the
    /// same node or already joined; tells whether an edge was added.
    pub fn add_edge_(id1: usize, id2: usize, adjacencies: &mut Vec<Vec<usize>>) -> (added: bool)
        requires
            id1 < old(adjacencies).len(),
            id2 < old(adjacencies).len(),
        ensures
            rows(final(adjacencies)@) == after_add(rows(old(adjacencies)@), id1, id2),
            added == (rows(final(adjacencies)@) != rows(old(adjacencies)@)),
            added == (id1 != id2 && !adjacent(rows(old(adjacencies)@), id1, id2) && !adjacent(
                rows(old(adjacencies)@),
                id2,
                id1,
            )),
    {
        let ghost before = rows(adjacencies@);
        if !list_contains(&adjacencies[id1], id2) && !list_contains(&adjacencies[id2], id1) && id1
            != id2 {
            adjacencies[id1].push(id2);
            adjacencies[id2].push(id1);
            proof {
                assert(rows(adjacencies@) =~= with_edge(before, id1, id2));
                lemma_with_edge(before, id1, id2);
                assert(rows(adjacencies@)[id1 as int].len() != before[id1 as int].len());
            }
            true
        } else {
            proof {
                assert(rows(adjacencies@) =~= before);
            }
            false
        }
    }

    /// Takes the edge between `id1` and `id2` out of the adjacency lists, if
    /// it is there.
    pub fn rm_edge_(id1: usize, id2: usize, adjacencies: &mut Vec<Vec<usize>>)
        requires
            id1 < old(adjacencies).len(),
            id2 < old(adjacencies).len(),
        ensures
            rows(final(adjacencies)@) == after_remove(rows(old(adjacencies)@), id1, id2),
    {
        let ghost before = rows(adjacencies@);
        list_remove(&mut adjacencies[id1], id2);
        list_remove(&mut adjacencies[id2], id1);
        proof {
            assert(rows(adjacencies@) =~= after_remove(before, id1, id2));
        }
    }

    /// Removes the edge between `id1` and `id2` if it is there and adds it
    /// if it is not.
    pub fn add_rm_edge_(id1: usize, id2: usize, adjacencies: &mut Vec<Vec<usize>>)
        requires
            id1 < old(adjacencies).len(),
            id2 < old(adjacencies).len(),
        ensures
            rows(final(adjacencies)@) == after_toggle(rows(old(adjacencies)@), id1, id2),
    {
        if list_contains(&adjacencies[id1], id2) && list_contains(&adjacencies[id2], id1) {
            Self::rm_edge_(id1, id2, adjacencies);
        } else {
            Self::add_edge_(id1, id2, adjacencies);
        }
    }

    /// Adds the edge `{id1, id2}`. Returns `false`, and changes nothing, if
    /// `id1 == id2` or the edge is there already.
    pub fn add_edge(&mut self, id1: usize, id2: usize) -> (added: bool)
        requires
            old(self)@.valid(),
            id1 < old(self)@.nodes.len(),
            id2 < old(self)@.nodes.len(),
        ensures
            final(self)@ == old(self)@.with_rows(after_add(old(self)@.adjacencies, id1, id2)),
            final(self)@.valid(),
            old(self)@.is_simple() ==> final(self)@.is_simple(),
            added == (id1 != id2 && !adjacent(old(self)@.adjacencies, id1, id2) && !adjacent(
                old(self)@.adjacencies,
                id2,
                id1,
            )),
    {
        proof {
            lemma_after_add_in_range(self@.adjacencies, id1, id2);
            if self@.is_simple() {
                lemma_after_add_simple(self@.adjacencies, id1, id2);
            }
        }
        Self::add_edge_(id1, id2, &mut self.adjacencies)
    }

    /// Removes the edge `{id1, id2}`; changes nothing if it is not there.
    pub fn rm_edge(&mut self, id1: usize, id2: usize)
        requires
            old(self)@.valid(),
            id1 < old(self)@.nodes.len(),
            id2 < old(self)@.nodes.len(),
        ensures
            final(self)@ == old(self)@.with_rows(after_remove(old(self)@.adjacencies, id1, id2)),
            final(self)@.valid(),
            old(self)@.is_simple() ==> final(self)@.is_simple(),
    {
        proof {
            lemma_after_remove_in_range(self@.adjacencies, id1, id2);
            if self@.is_simple() {
                lemma_after_remove_simple(self@.adjacencies, id1, id2);
            }
        }
        Self::rm_edge_(id1, id2, &mut self.adjacencies);
    }

    /// Toggles the edge `{id1, id2}`: removes it if it is there, adds it if
    /// it is not. With `id1 == id2` nothing changes.
    pub fn add_rm_edge(&mut self, id1: usize, id2: usize)
        requires
            old(self)@.valid(),
            id1 < old(self)@.nodes.len(),
            id2 < old(self)@.nodes.len(),
        ensures
            final(self)@ == old(self)@.with_rows(after_toggle(old(self)@.adjacencies, id1, id2)),
            final(self)@.valid(),
            old(self)@.is_simple() ==> final(self)@.is_simple(),
    {
        proof {
            lemma_after_toggle_in_range(self@.adjacencies, id1, id2);
            if self@.is_simple() {
                lemma_after_toggle_simple(self@.adjacencies, id1, id2);
            }
        }
        Self::add_rm_edge_(id1, id2, &mut self.adjacencies);
    }

    /// Whether the traversal from `start` comes upon a node twice. In a
    /// simple graph that is whether the component of `start` holds a cycle,
    /// that is, is not a tree.
    pub fn has_cycle_from(&self, start: usize) -> (found: bool)
        requires
            self@.valid(),
            start < self@.nodes.len(),
        ensures
            found == cycle_from(self@.adjacencies, start),
            self@.is_simple() ==> found == !tree_at(self@.adjacencies, start),
    {
        proof {
            if self@.is_simple() {
                lemma_cycle_from_iff_not_tree(self@.adjacencies, start);
            }
        }
        rows_have_cycle_from(&self.adjacencies, start)
    }

    /// Whether the traversal from some node comes upon a node twice. In a
    /// simple graph that is whether the graph holds a cycle, that is, is not
    /// a forest: whether it has more edges than it has nodes, less the
    /// number of its components.
    pub fn has_cycle(&self) -> (found: bool)
        requires
            self@.valid(),
        ensures
            found == cyclic(self@.adjacencies),
            self@.is_simple() ==> found == !is_forest(self@.adjacencies),
            self@.is_simple() ==> found == (edge_count(self@.adjacencies) + component_count(
                self@.adjacencies,
            ) > self@.nodes.len()),
    {
        proof {
            if self@.is_simple() {
                lemma_cyclic_iff_not_forest(self@.adjacencies);
                lemma_forest_iff_edge_count(self@.adjacencies);
            }
        }
        rows_have_cycle(&self.adjacencies)
    }

    /// The node that a press at `pos` is addressed to: the lowest-numbered
    /// node whose disc contains `pos`.
    pub fn node_at(&self, pos: Pos2) -> (hit: Option<usize>)
        ensures
            hit == first_hit(self@.nodes, pos),
    {
        let mut i: usize = 0;
        while i < self.nodes.len()
            invariant
                i <= self.nodes.len(),
                forall|j: int| 0 <= j < i ==> !(#[trigger] self.nodes@[j]).circle.covers(pos),
            decreases self.nodes.len() - i,
        {
            if self.nodes[i].contains(pos) {
                proof {
                    assert(is_first_hit(self@.nodes, pos, i as int));
                    lemma_first_hit(self@.nodes, pos, i as int);
                }
                return Some(i);
            }
            i += 1;
        }
        proof {
            assert forall|k: int| !is_first_hit(self@.nodes, pos, k) by {
                if 0 <= k < self@.nodes.len() {
                    assert(!self.nodes@[k].circle.covers(pos));
                }
            }
        }
        None
    }

    /// The lowest-numbered node that is being dragged.
    pub fn dragged_node(&self) -> (found: Option<usize>)
        ensures
            found == first_dragging(self@.nodes),
    {
        let mut i: usize = 0;
        while i < self.nodes.len()
            invariant
                i <= self.nodes.len(),
                forall|j: int| 0 <= j < i ==> !(#[trigger] self.nodes@[j]).is_dragging,
            decreases self.nodes.len() - i,
        {
            if self.nodes[i].is_dragging() {
                proof {
                    assert(is_first_dragging(self@.nodes, i as int));
                    lemma_first_dragging(self@.nodes, i as int);
                }
                return Some(i);
            }
            i += 1;
        }
        proof {
            assert forall|k: int| !is_first_dragging(self@.nodes, k) by {
                if 0 <= k < self@.nodes.len() {
                    assert(!self.nodes@[k].is_dragging);
                }
            }
        }
        None
    }

    /// Lets every node take part in dragging while the pointer moves to
    /// `pos`.
    fn drag_nodes(&mut self, event: &Event, pos: Pos2)
        requires
            old(self).state == State::Dragging,
            *event == Event::PointerMoved(pos),
        ensures
            final(self)@ == old(self)@.drag(pos),
    {
        let mut i: usize = 0;
        while i < self.nodes.len()
            invariant
                i <= self.nodes.len(),
                *event == Event::PointerMoved(pos),
                self.nodes.len() == old(self).nodes.len(),
                self.adjacencies == old(self).adjacencies,
                self.max_id == old(self).max_id,
                self.state == State::Dragging,
                self.state == old(self).state,
                self.new_vertex == old(self).new_vertex,
                self.new_node == old(self).new_node,
                forall|j: int| 0 <= j < i ==> #[trigger] self.nodes@[j] == old(self)@.drag(pos).nodes[j],
                forall|j: int| i <= j < self.nodes.len() ==> #[trigger] self.nodes@[j] == old(self).nodes@[j],
            decreases self.nodes.len() - i,
        {
            self.nodes[i].handle_event(event, &mut self.state);
            i += 1;
        }
        proof {
            assert(self@.nodes =~= old(self)@.drag(pos).nodes);
        }
    }

    /// Lets the nodes handle one input event and tells what they answer.
    ///
    /// A press is handed to the lowest-numbered node under the pointer, a
    /// pointer move to every node, a release of the primary button to the
    /// lowest-numbered node that is held. No edge is changed: where a node
    /// answers that it is the second end of an edge, the answer names the
    /// two ends, the selection is emptied, and toggling the edge is left to
    /// the caller.
    pub fn handle_event(&mut self, event: &Event) -> (response: Response)
        requires
            old(self)@.valid(),
        ensures
            final(self)@ == old(self)@.after_handling(*event),
            final(self)@.valid(),
            response == old(self)@.response_to(*event),
    {
        let ghost g = self@;
        let mut response = Response::Nothing;
        match event {
            Event::PointerButton { pos, button, pressed } => {
                if *pressed {
                    if let Some(k) = self.node_at(*pos) {
                        proof {
                            let c = choose|c: int| is_first_hit(g.nodes, *pos, c);
                            assert(is_first_hit(g.nodes, *pos, c));
                        }
                        response = self.nodes[k].handle_event_graph(
                            event,
                            &mut self.state,
                            &mut self.new_vertex,
                        );
                        if let Response::NewVertex(_, _) = response {
                            self.new_vertex = TemporaryVertex::default();
                        }
                        proof {
                            assert(self@.nodes =~= g.after_gesture(*event).nodes);
                        }
                    }
                } else if let State::Dragging = self.state {
                    if let PointerButton::Primary = button {
                        match self.dragged_node() {
                            Some(k) => {
                                proof {
                                    let c = choose|c: int| is_first_dragging(g.nodes, c);
                                    assert(is_first_dragging(g.nodes, c));
                                }
                                self.nodes[k].handle_event(event, &mut self.state);
                            },
                            None => {
                                self.state = State::Idle;
                            },
                        }
                        proof {
                            assert(self@.nodes =~= g.release().nodes);
                        }
                    }
                }
            },
            Event::PointerMoved(pos) => {
                if let State::Dragging = self.state {
                    if self.dragged_node().is_some() {
                        response = Response::Dragging;
                    }
                    self.drag_nodes(event, *pos);
                }
            },
            _ => {},
        }
        proof {
            lemma_after_preview_valid(g, *event);
            lemma_response_names_edge(g, *event);
        }
        response
    }

    /// Feeds one input event to the editor.
    ///
    /// The nodes handle the event; if a node answers that it is the second
    /// end of an edge, the edge is toggled. Then the stand-in for the first
    /// end and the node that is being placed follow the pointer, and the `A`
    /// key going down places a node.
    pub fn update(&mut self, event: &Event)
        requires
            old(self)@.valid(),
        ensures
            final(self)@ == old(self)@.after(*event),
            final(self)@.valid(),
            old(self)@.is_simple() ==> final(self)@.is_simple(),
    {
        let ghost g = self@;
        proof {
            lemma_response_names_edge(g, *event);
            lemma_after_preview_valid(g, *event);
        }
        if let Response::NewVertex(first, second) = self.handle_event(event) {
            Self::add_rm_edge_(first, second, &mut self.adjacencies);
        }
        assert(self@ == g.after_gesture(*event));
        if let Some(n) = self.new_vertex.first_mut() {
            n.follow_mouse(event);
        }
        let mut placed: Option<Pos2> = None;
        match &mut self.new_node {
            Some(n) => {
                n.follow_mouse(event);
                placed = Some(n.pos());
            },
            None => {},
        }
        assert(self@ == g.after_gesture(*event).after_preview(*event));
        if let Some(at) = placed {
            if let Event::Key { key, pressed } = event {
                if *pressed {
                    if let Key::A = key {
                        self.add_node(at);
                    }
                }
            }
        }
    }

    /// Gives every node, and every stand-in, the radius `radius`.
    pub fn set_radius_nodes(&mut self, radius: u32) -> (r: &mut Self)
        ensures
            r@ == old(self)@.with_radius(radius),
            *final(self) == *final(r),
    {
        let mut i: usize = 0;
        while i < self.nodes.len()
            invariant
                i <= self.nodes.len(),
                self.nodes.len() == old(self).nodes.len(),
                self.adjacencies == old(self).adjacencies,
                self.max_id == old(self).max_id,
                self.state == old(self).state,
                self.new_vertex == old(self).new_vertex,
                self.new_node == old(self).new_node,
                forall|j: int| 0 <= j < i ==> #[trigger] self.nodes@[j] == old(self).nodes@[j].resized(radius),
                forall|j: int| i <= j < self.nodes.len() ==> #[trigger] self.nodes@[j] == old(self).nodes@[j],
            decreases self.nodes.len() - i,
        {
            self.nodes[i].set_radius(radius);
            i += 1;
        }
        if let Some(node) = self.new_vertex.first_mut() {
            node.set_radius(radius);
        }
        if let Some(node) = self.new_vertex.second_mut() {
            node.set_radius(radius);
        }
        match &mut self.new_node {
            Some(node) => {
                node.set_radius(radius);
            },
            None => {},
        }
        proof {
            assert(self@.nodes =~= old(self)@.with_radius(radius).nodes);
        }
        self
    }

    /// Begins adding nodes: a node to be placed appears and follows the
    /// pointer from now on. A selection that awaits its second end is given
    /// up.
    pub fn begin_add_node_ui(&mut self)
        requires
            old(self)@.valid(),
        ensures
            final(self)@ == old(self)@.adding(),
            final(self)@.valid(),
    {
        self.new_node = Some(Node::new_circle_node(None, Pos2::new(200, 400)));
        self.new_vertex = TemporaryVertex::default();
        self.state = State::AddNode;
    }

    /// Ends adding nodes and leaves the editor idle, without a selection.
    pub fn end_add_node_ui(&mut self)
        requires
            old(self)@.valid(),
        ensures
            final(self)@ == old(self)@.not_adding(),
            final(self)@.valid(),
    {
        self.new_node = None;
        self.new_vertex = TemporaryVertex::default();
        self.state = State::Idle;
    }

    /// The switch that turns adding nodes on and off: `clicked` tells
    /// whether it was operated.
    pub fn add_node_ui(&mut self, clicked: bool)
        requires
            old(self)@.valid(),
        ensures
            final(self)@ == if !clicked {
                old(self)@
            } else if old(self)@.state == State::AddNode {
                old(self)@.not_adding()
            } else {
                old(self)@.adding()
            },
            final(self)@.valid(),
    {
        if clicked {
            match self.state {
                State::AddNode => {
                    self.end_add_node_ui();
                },
                _ => {
                    self.begin_add_node_ui();
                },
            }
        }
    }

    /// Joins every pair of distinct nodes that is not joined yet: node 0
    /// with every node in turn, then node 1, and so on.
    pub fn add_every_edge(&mut self)
        requires
            old(self)@.valid(),
        ensures
            final(self)@ == old(self)@.with_rows(
                joined_all(old(self)@.adjacencies, old(self)@.nodes.len()),
            ),
            final(self)@.valid(),
            old(self)@.is_simple() ==> final(self)@.is_simple() && forall|a: usize, b: usize|
                a < final(self)@.nodes.len() && b < final(self)@.nodes.len() && a != b
                    ==> #[trigger] adjacent(final(self)@.adjacencies, a, b),
    {
        let n: usize = self.nodes.len();
        let ghost start = self@;
        let mut i: usize = 0;
        while i < n
            invariant
                i <= n,
                n == start.nodes.len(),
                start.adjacencies.len() == n,
                self@.valid(),
                self@ == start.with_rows(joined_all(start.adjacencies, i as nat)),
                start.is_simple() ==> self@.is_simple() && forall|a: usize, b: usize|
                    a < i && b < n && a != b ==> #[trigger] adjacent(self@.adjacencies, a, b),
            decreases n - i,
        {
            let ghost row_start = self@.adjacencies;
            let mut j: usize = 0;
            while j < n
                invariant
                    i < n,
                    j <= n,
                    n == start.nodes.len(),
                    self@.valid(),
                    self@ == start.with_rows(joined_with(row_start, i, j as nat)),
                    start.is_simple() ==> self@.is_simple() && (forall|a: usize, b: usize|
                        a < i && b < n && a != b ==> #[trigger] adjacent(self@.adjacencies, a, b))
                        && (forall|b: usize|
                        b < j && b != i ==> #[trigger] adjacent(self@.adjacencies, i, b)),
                decreases n - j,
            {
                proof {
                    if start.is_simple() {
                        lemma_after_add(self@.adjacencies, i, j);
                    }
                }
                if i != j {
                    self.add_edge(i, j);
                }
                j += 1;
            }
            i += 1;
        }
    }

    /// Every edge once, from its lower-numbered end: row by row, and within
    /// a row in the order of its entries.
    pub fn vertices(&self) -> (list: Vec<Vertex>)
        requires
            self@.valid(),
        ensures
            list@ == edges(self@.adjacencies),
    {
        let mut list: Vec<Vertex> = Vec::new();
        let mut a: usize = 0;
        while a < self.adjacencies.len()
            invariant
                a <= self.adjacencies.len(),
                list@ == edges_upto(self@.adjacencies, a as nat),
            decreases self.adjacencies.len() - a,
        {
            let row = &self.adjacencies[a];
            let ghost base = list@;
            let mut k: usize = 0;
            proof {
                assert(row@.take(0) =~= Seq::<usize>::empty());
                assert(base + row_edges(a, row@.take(0)) =~= base);
            }
            while k < row.len()
                invariant
                    k <= row.len(),
                    list@ == base + row_edges(a, row@.take(k as int)),
                decreases row.len() - k,
            {
                proof {
                    assert(row@.take(k + 1).drop_last() =~= row@.take(k as int));
                    let rest = row_edges(a, row@.take(k as int));
                    assert(base + rest.push(Vertex { node_id1: a, node_id2: row@[k as int] }) =~= (base
                        + rest).push(Vertex { node_id1: a, node_id2: row@[k as int] }));
                }
                if a < row[k] {
                    list.push(Vertex::new(a, row[k]));
                }
                k += 1;
            }
            proof {
                assert(row@.take(k as int) =~= row@);
            }
            a += 1;
        }
        list
    }

    /// A graph on copies of the nodes, without an edge and with nothing in
    /// progress.
    pub fn graph_without_edges(&self) -> (g: Graph)
        requires
            self@.valid(),
        ensures
            g@ == self@.without_edges(),
            g@.valid(),
            g@.is_simple(),
    {
        let mut adjacencies: Vec<Vec<usize>> = Vec::new();
        let mut i: usize = 0;
        while i < self.nodes.len()
            invariant
                i <= self.nodes.len(),
                adjacencies.len() == i,
                forall|k: int| 0 <= k < i ==> (#[trigger] adjacencies@[k])@ == Seq::<usize>::empty(),
            decreases self.nodes.len() - i,
        {
            adjacencies.push(Vec::new());
            i += 1;
        }
        let g = Graph {
            nodes: self.nodes.clone(),
            adjacencies,
            max_id: self.max_id,
            state: State::Idle,
            new_vertex: TemporaryVertex::default(),
            new_node: None,
        };
        proof {
            assert(g@.nodes =~= self@.nodes);
            assert(g@.adjacencies =~= empty_rows(self@.nodes.len()));
            lemma_empty_rows_simple(self@.nodes.len());
        }
        g
    }
}

/// A new node keeps a graph valid, and a simple graph simple.
pub proof fn lemma_with_node_valid(g: GraphView, pos: Pos2)
    requires
        g.valid(),
        g.nodes.len() < usize::MAX,
    ensures
        g.with_node(pos).valid(),
        g.is_simple() ==> g.with_node(pos).is_simple(),
{
    lemma_push_empty_row(g.adjacencies);
}

} // verus!
