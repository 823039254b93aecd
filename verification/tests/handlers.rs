use graph::event::{Event, Key, PointerButton};
use graph::geometry::Pos2;
use graph::graph::Graph;
use graph::node::{pos2_to_node, Node};
use graph::response::Response;
use graph::state::State;
use graph::vertex::TemporaryVertex;

fn press(button: PointerButton, x: i32, y: i32) -> Event {
    Event::PointerButton { pos: Pos2::new(x, y), button, pressed: true }
}

fn release(button: PointerButton, x: i32, y: i32) -> Event {
    Event::PointerButton { pos: Pos2::new(x, y), button, pressed: false }
}

fn node() -> Node {
    pos2_to_node(3, Pos2::new(50, 50))
}

#[test]
fn handle_event_drags_one_node() {
    let mut n = node();
    let mut state = State::Idle;
    n.handle_event(&press(PointerButton::Primary, 70, 50), &mut state);
    assert_eq!(state, State::Idle);
    assert_eq!(n, node());

    n.handle_event(&press(PointerButton::Primary, 52, 49), &mut state);
    assert_eq!(state, State::Dragging);
    assert!(n.is_dragging());
    assert_eq!(n.drag_start(), Pos2::new(52, 49));

    n.handle_event(&Event::PointerMoved(Pos2::new(60, 40)), &mut state);
    assert_eq!(n.pos(), Pos2::new(58, 41));
    assert_eq!(n.drag_start(), Pos2::new(60, 40));
    assert_eq!(state, State::Dragging);

    n.handle_event(&release(PointerButton::Secondary, 60, 40), &mut state);
    assert_eq!(state, State::Dragging);
    n.handle_event(&release(PointerButton::Primary, 60, 40), &mut state);
    assert_eq!(state, State::Idle);
    assert!(!n.is_dragging());
    assert_eq!(n.pos(), Pos2::new(58, 41));
}

#[test]
fn handle_event_leaves_a_node_that_is_not_held() {
    let mut n = node();
    let mut state = State::Dragging;
    n.handle_event(&Event::PointerMoved(Pos2::new(60, 40)), &mut state);
    n.handle_event(&release(PointerButton::Primary, 60, 40), &mut state);
    assert_eq!(n, node());
    assert_eq!(state, State::Dragging);
    let mut state = State::AddNode;
    n.handle_event(&press(PointerButton::Primary, 50, 50), &mut state);
    assert_eq!(n, node());
    assert_eq!(state, State::AddNode);
    let mut state = State::RightClicked;
    n.handle_event(&press(PointerButton::Primary, 50, 50), &mut state);
    assert_eq!(n, node());
    assert_eq!(state, State::RightClicked);
}

#[test]
fn handle_event_graph_answers_dragging() {
    let mut n = node();
    let mut state = State::Idle;
    let mut picked = TemporaryVertex::default();
    let r = n.handle_event_graph(&press(PointerButton::Primary, 50, 50), &mut state, &mut picked);
    assert_eq!(r, Response::Dragging);
    assert_eq!(state, State::Dragging);
    let r = n.handle_event_graph(&Event::PointerMoved(Pos2::new(51, 51)), &mut state, &mut picked);
    assert_eq!(r, Response::Dragging);
    assert_eq!(n.pos(), Pos2::new(51, 51));
    let r = n.handle_event_graph(&press(PointerButton::Primary, 51, 51), &mut state, &mut picked);
    assert_eq!(r, Response::Nothing);
    let r = n.handle_event_graph(&release(PointerButton::Primary, 51, 51), &mut state, &mut picked);
    assert_eq!(r, Response::Nothing);
    assert_eq!(state, State::Idle);
    assert_eq!(picked, TemporaryVertex::default());
}

#[test]
fn handle_event_graph_picks_both_ends() {
    let mut first = node();
    let mut second = pos2_to_node(8, Pos2::new(0, 0));
    let mut state = State::Idle;
    let mut picked = TemporaryVertex::default();

    let r = second.handle_event_graph(&press(PointerButton::Secondary, 50, 50), &mut state, &mut picked);
    assert_eq!(r, Response::Nothing);
    assert_eq!(state, State::Idle);

    let r = first.handle_event_graph(&press(PointerButton::Secondary, 51, 50), &mut state, &mut picked);
    assert_eq!(r, Response::RightClicked);
    assert_eq!(state, State::RightClicked);
    assert_eq!(first.drag_start(), Pos2::new(51, 50));
    assert_eq!(picked.node_selected_id1, Some(3));
    assert_eq!(picked.node_selected_id2, Some(3));
    assert_eq!(picked.node1, Some(pos2_to_node(0, Pos2::new(50, 50))));

    let r = second.handle_event_graph(&press(PointerButton::Secondary, 90, 90), &mut state, &mut picked);
    assert_eq!(r, Response::Nothing);
    assert_eq!(state, State::RightClicked);

    let r = second.handle_event_graph(&press(PointerButton::Secondary, 1, 1), &mut state, &mut picked);
    assert_eq!(r, Response::NewVertex(3, 8));
    assert_eq!(state, State::Idle);
    assert_eq!(picked.node_selected_id2, Some(8));
    assert_eq!(picked.node2, Some(pos2_to_node(0, Pos2::new(0, 0))));
    assert_eq!(second, pos2_to_node(8, Pos2::new(0, 0)));
}

#[test]
fn handle_event_graph_ignores_what_is_not_for_it() {
    let mut n = node();
    let mut state = State::Idle;
    let mut picked = TemporaryVertex::default();
    for event in [
        Event::Other,
        Event::Key { key: Key::A, pressed: true },
        Event::PointerMoved(Pos2::new(50, 50)),
        press(PointerButton::Middle, 50, 50),
        release(PointerButton::Secondary, 50, 50),
    ] {
        assert_eq!(n.handle_event_graph(&event, &mut state, &mut picked), Response::Nothing);
        assert_eq!(n, node());
        assert_eq!(state, State::Idle);
        assert_eq!(picked, TemporaryVertex::default());
    }
}

fn two_nodes() -> Graph {
    let mut g = Graph::default();
    g.add_node(Pos2::new(0, 0));
    g.add_node(Pos2::new(100, 0));
    g
}

#[test]
fn graph_handle_event_reports_the_edge_and_leaves_it_to_the_caller() {
    let mut g = two_nodes();
    assert_eq!(g.handle_event(&press(PointerButton::Secondary, 50, 50)), Response::Nothing);
    assert_eq!(g.handle_event(&press(PointerButton::Secondary, 99, 1)), Response::RightClicked);
    assert_eq!(g.state(), State::RightClicked);
    assert_eq!(g.handle_event(&press(PointerButton::Secondary, 50, 50)), Response::Nothing);
    assert_eq!(g.handle_event(&press(PointerButton::Secondary, 1, 1)), Response::NewVertex(1, 0));
    assert_eq!(g.state(), State::Idle);
    assert_eq!(g.new_vertex(), TemporaryVertex::default());
    assert_eq!(g.adjacencies(), &vec![Vec::<usize>::new(), vec![]]);
    assert!(g.is_valid());
}

#[test]
fn graph_handle_event_reports_dragging() {
    let mut g = two_nodes();
    assert_eq!(g.handle_event(&Event::PointerMoved(Pos2::new(0, 0))), Response::Nothing);
    assert_eq!(g.handle_event(&press(PointerButton::Primary, 100, 0)), Response::Dragging);
    assert_eq!(g.handle_event(&press(PointerButton::Primary, 100, 0)), Response::Nothing);
    assert_eq!(g.handle_event(&Event::PointerMoved(Pos2::new(90, 10))), Response::Dragging);
    assert_eq!(g.position_of(1), Pos2::new(90, 10));
    assert_eq!(g.handle_event(&release(PointerButton::Primary, 90, 10)), Response::Nothing);
    assert_eq!(g.state(), State::Idle);
    assert_eq!(g.handle_event(&Event::PointerMoved(Pos2::new(0, 0))), Response::Nothing);
    assert_eq!(g.handle_event(&Event::Key { key: Key::A, pressed: true }), Response::Nothing);
    assert_eq!(g.node_count(), 2);
}

#[test]
fn graph_handle_event_does_not_move_the_stand_ins() {
    let mut g = two_nodes();
    g.handle_event(&press(PointerButton::Secondary, 0, 0));
    g.handle_event(&Event::PointerMoved(Pos2::new(40, 40)));
    assert_eq!(g.new_vertex().node1.unwrap().pos(), Pos2::new(0, 0));
    g.update(&Event::PointerMoved(Pos2::new(41, 41)));
    assert_eq!(g.new_vertex().node1.unwrap().pos(), Pos2::new(41, 41));
}
