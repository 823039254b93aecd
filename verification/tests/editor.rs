use graph::circle::Circle;
use graph::event::{Event, Key, PointerButton};
use graph::geometry::Pos2;
use graph::graph::Graph;
use graph::node::Node;
use graph::state::State;
use graph::vertex::TemporaryVertex;

fn press(button: PointerButton, x: i32, y: i32) -> Event {
    Event::PointerButton { pos: Pos2::new(x, y), button, pressed: true }
}

fn release(button: PointerButton, x: i32, y: i32) -> Event {
    Event::PointerButton { pos: Pos2::new(x, y), button, pressed: false }
}

fn three_nodes() -> Graph {
    let mut g = Graph::default();
    g.add_node(Pos2::new(0, 0));
    g.add_node(Pos2::new(100, 0));
    g.add_node(Pos2::new(0, 100));
    g
}

#[test]
fn state_names() {
    assert_eq!(State::Idle.to_string(), "Idle");
    assert_eq!(State::Dragging.to_string(), "Dragging");
    assert_eq!(State::RightClicked.to_string(), "RightClicked");
    assert_eq!(State::AddNode.to_string(), "AddNode");
    assert_eq!(State::default(), State::Idle);
}

#[test]
fn new_graph_is_idle() {
    let g = three_nodes();
    assert_eq!(g.state(), State::Idle);
    assert_eq!(g.new_vertex(), TemporaryVertex::default());
    assert_eq!(g.new_node(), None);
}

#[test]
fn primary_press_on_a_node_starts_a_drag() {
    let mut g = three_nodes();
    g.update(&press(PointerButton::Primary, 103, 4));
    assert_eq!(g.state(), State::Dragging);
    assert!(g.nodes()[1].is_dragging());
    assert_eq!(g.nodes()[1].drag_start(), Pos2::new(103, 4));
    assert!(!g.nodes()[0].is_dragging());
    assert_eq!(g.dragged_node(), Some(1));
}

#[test]
fn primary_press_beside_every_node_does_nothing() {
    let mut g = three_nodes();
    g.update(&press(PointerButton::Primary, 50, 50));
    assert_eq!(g.state(), State::Idle);
    assert_eq!(g.dragged_node(), None);
    // the rim of the disc is outside: distance 10 is not less than radius 10
    g.update(&press(PointerButton::Primary, 10, 0));
    assert_eq!(g.state(), State::Idle);
    g.update(&press(PointerButton::Primary, 9, 0));
    assert_eq!(g.state(), State::Dragging);
}

#[test]
fn drag_moves_the_node_by_the_pointer_delta() {
    let mut g = three_nodes();
    g.update(&press(PointerButton::Primary, 103, 4));
    g.update(&Event::PointerMoved(Pos2::new(113, 0)));
    assert_eq!(g.position_of(1), Pos2::new(110, -4));
    assert_eq!(g.nodes()[1].drag_start(), Pos2::new(113, 0));
    g.update(&Event::PointerMoved(Pos2::new(13, 50)));
    assert_eq!(g.position_of(1), Pos2::new(10, 46));
    assert_eq!(g.position_of(0), Pos2::new(0, 0));
    g.update(&release(PointerButton::Primary, 13, 50));
    assert_eq!(g.state(), State::Idle);
    assert!(!g.nodes()[1].is_dragging());
    g.update(&Event::PointerMoved(Pos2::new(500, 500)));
    assert_eq!(g.position_of(1), Pos2::new(10, 46));
}

#[test]
fn release_without_a_drag_is_ignored() {
    let mut g = three_nodes();
    g.update(&release(PointerButton::Primary, 0, 0));
    assert_eq!(g.state(), State::Idle);
    g.update(&Event::PointerMoved(Pos2::new(3, 3)));
    assert_eq!(g.position_of(0), Pos2::new(0, 0));
    g.update(&Event::Other);
    g.update(&press(PointerButton::Middle, 0, 0));
    assert_eq!(g.state(), State::Idle);
}

#[test]
fn secondary_release_does_not_end_a_drag() {
    let mut g = three_nodes();
    g.update(&press(PointerButton::Primary, 0, 0));
    g.update(&release(PointerButton::Secondary, 0, 0));
    assert_eq!(g.state(), State::Dragging);
    g.update(&press(PointerButton::Secondary, 100, 0));
    assert_eq!(g.state(), State::Dragging);
}

#[test]
fn two_secondary_presses_add_an_edge() {
    let mut g = three_nodes();
    g.update(&press(PointerButton::Secondary, 1, 1));
    assert_eq!(g.state(), State::RightClicked);
    let picked = g.new_vertex();
    assert_eq!(picked.node_selected_id1, Some(0));
    assert_eq!(picked.node_selected_id2, Some(0));
    assert!(picked.first_is_some());
    assert_eq!(picked.node1.unwrap().pos(), Pos2::new(0, 0));
    assert_eq!(picked.node2.unwrap().pos(), Pos2::new(0, 0));
    assert_eq!(g.nodes()[0].drag_start(), Pos2::new(1, 1));

    g.update(&Event::PointerMoved(Pos2::new(40, 40)));
    assert_eq!(g.new_vertex().node1.unwrap().pos(), Pos2::new(40, 40));
    assert_eq!(g.new_vertex().node2.unwrap().pos(), Pos2::new(0, 0));

    g.update(&press(PointerButton::Secondary, 2, 98));
    assert_eq!(g.state(), State::Idle);
    assert_eq!(g.adjacencies(), &vec![vec![2], vec![], vec![0]]);
    assert_eq!(g.new_vertex(), TemporaryVertex::default());
}

#[test]
fn the_same_gesture_again_removes_the_edge() {
    let mut g = three_nodes();
    for _ in 0..2 {
        g.update(&press(PointerButton::Secondary, 0, 0));
        g.update(&press(PointerButton::Secondary, 100, 0));
    }
    assert_eq!(g.adjacencies(), &vec![Vec::<usize>::new(), vec![], vec![]]);
    assert_eq!(g.state(), State::Idle);
}

#[test]
fn picking_the_same_node_twice_adds_no_loop() {
    let mut g = three_nodes();
    g.update(&press(PointerButton::Secondary, 0, 0));
    g.update(&press(PointerButton::Secondary, 0, 0));
    assert_eq!(g.state(), State::Idle);
    assert_eq!(g.adjacencies(), &vec![Vec::<usize>::new(), vec![], vec![]]);
}

#[test]
fn second_press_beside_every_node_keeps_waiting() {
    let mut g = three_nodes();
    g.update(&press(PointerButton::Secondary, 0, 0));
    g.update(&press(PointerButton::Secondary, 50, 50));
    assert_eq!(g.state(), State::RightClicked);
    g.update(&press(PointerButton::Primary, 100, 0));
    assert_eq!(g.state(), State::RightClicked);
    assert_eq!(g.dragged_node(), None);
}

#[test]
fn a_press_goes_to_the_lowest_numbered_node_under_the_pointer() {
    let mut g = Graph::default();
    g.add_node(Pos2::new(0, 0));
    g.add_node(Pos2::new(5, 0));
    assert_eq!(g.node_at(Pos2::new(3, 0)), Some(0));
    assert_eq!(g.node_at(Pos2::new(12, 0)), Some(1));
    assert_eq!(g.node_at(Pos2::new(40, 0)), None);
    g.update(&press(PointerButton::Primary, 3, 0));
    assert!(g.nodes()[0].is_dragging());
    assert!(!g.nodes()[1].is_dragging());
}

#[test]
fn adding_nodes_with_the_key() {
    let mut g = Graph::default();
    g.begin_add_node_ui();
    assert_eq!(g.state(), State::AddNode);
    assert_eq!(g.new_node(), Some(Node::new_circle_node(None, Pos2::new(200, 400))));
    g.update(&Event::Key { key: Key::A, pressed: true });
    assert_eq!(g.node_count(), 1);
    assert_eq!(g.position_of(0), Pos2::new(200, 400));
    g.update(&Event::PointerMoved(Pos2::new(7, 9)));
    assert_eq!(g.new_node().unwrap().pos(), Pos2::new(7, 9));
    g.update(&Event::Key { key: Key::A, pressed: true });
    g.update(&Event::Key { key: Key::A, pressed: false });
    g.update(&Event::Key { key: Key::Other, pressed: true });
    assert_eq!(g.node_count(), 2);
    assert_eq!(g.position_of(1), Pos2::new(7, 9));
    assert_eq!(g.nodes()[1].id(), 1);
    assert_eq!(g.new_node().unwrap().pos(), Pos2::new(7, 9));
    assert_eq!(g.adjacencies(), &vec![Vec::<usize>::new(), vec![]]);
    // pointer gestures are off while nodes are added
    g.update(&press(PointerButton::Primary, 7, 9));
    assert_eq!(g.state(), State::AddNode);
    g.end_add_node_ui();
    assert_eq!(g.state(), State::Idle);
    assert_eq!(g.new_node(), None);
    g.update(&Event::Key { key: Key::A, pressed: true });
    assert_eq!(g.node_count(), 2);
}

#[test]
fn adding_nodes_gives_up_a_pending_selection() {
    let mut g = three_nodes();
    g.update(&press(PointerButton::Secondary, 0, 0));
    assert_eq!(g.state(), State::RightClicked);
    g.begin_add_node_ui();
    assert_eq!(g.state(), State::AddNode);
    assert_eq!(g.new_vertex(), TemporaryVertex::default());
    g.end_add_node_ui();
    assert_eq!(g.state(), State::Idle);
    // the next pick starts a selection of its own
    g.update(&press(PointerButton::Secondary, 100, 0));
    assert_eq!(g.new_vertex().node_selected_id1, Some(1));
    g.end_add_node_ui();
    assert_eq!(g.new_vertex(), TemporaryVertex::default());
    assert_eq!(g.state(), State::Idle);
    assert_eq!(g.adjacencies(), &vec![Vec::<usize>::new(), vec![], vec![]]);
}

#[test]
fn add_node_ui_toggles_when_clicked() {
    let mut g = three_nodes();
    g.add_node_ui(false);
    assert_eq!(g.state(), State::Idle);
    g.add_node_ui(true);
    assert_eq!(g.state(), State::AddNode);
    assert!(g.new_node().is_some());
    g.add_node_ui(false);
    assert_eq!(g.state(), State::AddNode);
    g.add_node_ui(true);
    assert_eq!(g.state(), State::Idle);
    assert!(g.new_node().is_none());
}

#[test]
fn set_radius_nodes_reaches_nodes_and_stand_ins() {
    let mut g = three_nodes();
    g.update(&press(PointerButton::Secondary, 0, 0));
    g.set_radius_nodes(25);
    for node in g.nodes() {
        assert_eq!(node.radius(), 25);
    }
    assert_eq!(g.new_vertex().node1.unwrap().radius(), 25);
    assert_eq!(g.new_vertex().node2.unwrap().radius(), 25);
    assert_eq!(g.new_node(), None);
    g.set_radius_nodes(20).begin_add_node_ui();
    assert_eq!(g.new_node().unwrap().radius(), 10);
    g.set_radius_nodes(25);
    assert_eq!(g.new_node().unwrap().radius(), 25);
    assert_eq!(g.node_at(Pos2::new(24, 0)), Some(0));
    assert_eq!(g.node_at(Pos2::new(25, 0)), None);
}

#[test]
fn drag_saturates_at_the_end_of_the_plane() {
    let mut g = Graph::default();
    g.add_node(Pos2::new(i32::MAX - 3, 0));
    g.update(&press(PointerButton::Primary, i32::MAX - 5, 0));
    g.update(&Event::PointerMoved(Pos2::new(i32::MAX, i32::MIN)));
    assert_eq!(g.position_of(0), Pos2::new(i32::MAX, i32::MIN));
}

#[test]
fn circle_hit_test_is_strict() {
    let mut c = Circle::new(Pos2::new(0, 0));
    assert_eq!(c.radius(), 10);
    assert!(c.contains(Pos2::new(6, 7)));
    assert!(!c.contains(Pos2::new(6, 8)));
    assert!(!c.contains(Pos2::new(0, 10)));
    c.set_radius(0);
    assert!(!c.contains(Pos2::new(0, 0)));
    c.set_radius(1);
    assert!(c.contains(Pos2::new(0, 0)));
    c.set_center(Pos2::new(5, 5));
    assert_eq!(c.center(), Pos2::new(5, 5));
    c.follow_mouse(&Event::PointerMoved(Pos2::new(-1, -2)));
    assert_eq!(c.center(), Pos2::new(-1, -2));
    c.follow_mouse(&press(PointerButton::Primary, 9, 9));
    assert_eq!(c.center(), Pos2::new(-1, -2));
}
