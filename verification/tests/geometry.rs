use graph::event::{Event, Key};
use graph::geometry::{Pos2, Vec2};
use graph::node::{pos2_to_node, Node};
use graph::vertex::TemporaryVertex;

#[test]
fn minus_is_exact_over_the_whole_range() {
    let d = Pos2::new(i32::MAX, i32::MIN).minus(Pos2::new(i32::MIN, i32::MAX));
    assert_eq!(d, Vec2::new(4294967295, -4294967295));
    assert_eq!(Pos2::new(3, 4).minus(Pos2::new(1, 1)), Vec2::new(2, 3));
    assert_eq!(Pos2::zero(), Pos2::new(0, 0));
}

#[test]
fn plus_adds_and_saturates() {
    assert_eq!(Pos2::new(3, 4).plus(Vec2::new(-5, 10)), Pos2::new(-2, 14));
    assert_eq!(Pos2::new(i32::MAX, 0).plus(Vec2::new(1, 0)), Pos2::new(i32::MAX, 0));
    assert_eq!(Pos2::new(0, i32::MIN).plus(Vec2::new(0, -1)), Pos2::new(0, i32::MIN));
    assert_eq!(
        Pos2::new(-7, 7).plus(Vec2::new(i64::MAX, i64::MIN)),
        Pos2::new(i32::MAX, i32::MIN)
    );
    assert_eq!(
        Pos2::new(i32::MIN, i32::MAX).plus(Vec2::new(4294967295, -4294967295)),
        Pos2::new(i32::MAX, i32::MIN)
    );
}

#[test]
fn distance_sq_is_exact() {
    assert_eq!(Pos2::new(0, 0).distance_sq(Pos2::new(3, 4)), 25);
    assert_eq!(Pos2::new(3, 4).distance_sq(Pos2::new(0, 0)), 25);
    assert_eq!(Pos2::new(-2, 5).distance_sq(Pos2::new(-2, 5)), 0);
    assert_eq!(
        Pos2::new(i32::MIN, i32::MIN).distance_sq(Pos2::new(i32::MAX, i32::MAX)),
        2 * 4294967295u128 * 4294967295u128
    );
}

#[test]
fn node_setters_touch_one_field_each() {
    let mut n = pos2_to_node(7, Pos2::new(1, 2));
    assert_eq!(n, Node::new_circle_node(Some(7), Pos2::new(1, 2)));
    assert_eq!(n.id(), 7);
    assert_eq!(n.pos(), Pos2::new(1, 2));
    assert_eq!(n.radius(), 10);
    assert!(!n.is_dragging());
    assert_eq!(n.drag_start(), Pos2::new(0, 0));
    n.set_pos(Pos2::new(5, 5)).set_radius(3);
    assert_eq!(n.pos(), Pos2::new(5, 5));
    assert_eq!(n.radius(), 3);
    n.set_is_dragging(true);
    n.set_drag_start(Pos2::new(9, 9));
    assert!(n.is_dragging());
    assert_eq!(n.drag_start(), Pos2::new(9, 9));
    assert_eq!(n.id(), 7);
    assert!(n.contains(Pos2::new(7, 7)));
    assert!(!n.contains(Pos2::new(8, 5)));
    n.follow_mouse(&Event::PointerMoved(Pos2::new(20, 20)));
    assert_eq!(n.pos(), Pos2::new(20, 20));
    n.follow_mouse(&Event::Key { key: Key::A, pressed: true });
    assert_eq!(n.pos(), Pos2::new(20, 20));
    assert_eq!(Node::new_circle_node(None, Pos2::new(0, 0)).id(), 0);
}

#[test]
fn temporary_vertex_keeps_ids_and_stand_ins() {
    let mut t = TemporaryVertex::default();
    assert!(!t.first_is_some());
    assert!(t.first_mut().is_none());
    assert!(t.second_mut().is_none());
    let mut a = pos2_to_node(4, Pos2::new(1, 1));
    a.set_radius(30);
    t.select_first(a);
    assert_eq!(t.node_selected_id1, Some(4));
    assert_eq!(t.node_selected_id2, None);
    assert_eq!(t.node1, Some(pos2_to_node(0, Pos2::new(1, 1))));
    t.select_second(pos2_to_node(6, Pos2::new(2, 2)));
    assert_eq!(t.node_selected_id2, Some(6));
    assert_eq!(t.node2, Some(pos2_to_node(0, Pos2::new(2, 2))));
    t.first_mut().unwrap().set_pos(Pos2::new(8, 8));
    t.second_mut().unwrap().set_radius(2);
    assert_eq!(t.node1.unwrap().pos(), Pos2::new(8, 8));
    assert_eq!(t.node2.unwrap().radius(), 2);
    assert_eq!(t.node_selected_id1, Some(4));
}
