use preflow::{
    are_we_done, enter_excess, flood, leave_excess, push, relabel, Edge, ExcessQueue, Node, Turn,
};

fn node(i: usize, e: i32, h: i32) -> Node {
    Node { i, e, h, in_queue: false }
}

#[test]
fn new_node_is_empty_and_low() {
    assert_eq!(Node::new(3), Node { i: 3, e: 0, h: 0, in_queue: false });
}

#[test]
fn new2_node_has_given_height() {
    assert_eq!(Node::new2(0, 7), Node { i: 0, e: 0, h: 7, in_queue: false });
}

#[test]
fn new_edge_carries_nothing() {
    assert_eq!(Edge::new(1, 2, 9), Edge { u: 1, v: 2, f: 0, c: 9 });
}

#[test]
fn other_endpoint() {
    let edge = Edge::new(4, 6, 1);
    assert_eq!(edge.other(4), 6);
    assert_eq!(edge.other(6), 4);
}

#[test]
fn residual_in_both_directions() {
    let edge = Edge { u: 1, v: 2, f: 3, c: 10 };
    assert_eq!(edge.residual_from(1), 7);
    assert_eq!(edge.residual_from(2), 13);
}

#[test]
fn residual_of_a_full_edge_is_twice_the_capacity_backwards() {
    let edge = Edge { u: 1, v: 2, f: i32::MAX, c: i32::MAX };
    assert_eq!(edge.residual_from(1), 0);
    assert_eq!(edge.residual_from(2), 2 * (i32::MAX as i64));
}

#[test]
fn push_moves_all_excess_when_the_edge_has_room() {
    let mut u = node(1, 4, 1);
    let mut v = node(2, 0, 0);
    let mut edge = Edge::new(1, 2, 10);
    assert!(push(&mut u, &mut v, &mut edge));
    assert_eq!(u, node(1, 0, 1));
    assert_eq!(v, node(2, 4, 0));
    assert_eq!(edge, Edge { u: 1, v: 2, f: 4, c: 10 });
}

#[test]
fn push_fills_the_edge_when_excess_is_larger() {
    let mut u = node(1, 12, 1);
    let mut v = node(2, 5, 0);
    let mut edge = Edge { u: 1, v: 2, f: 3, c: 10 };
    assert!(push(&mut u, &mut v, &mut edge));
    assert_eq!(u.e, 5);
    assert_eq!(v.e, 12);
    assert_eq!(edge.f, 10);
}

#[test]
fn push_against_the_edge_lowers_its_flow() {
    let mut u = node(2, 6, 3);
    let mut v = node(1, 0, 2);
    let mut edge = Edge { u: 1, v: 2, f: 4, c: 10 };
    assert!(push(&mut u, &mut v, &mut edge));
    assert_eq!(u.e, 0);
    assert_eq!(v.e, 6);
    assert_eq!(edge.f, -2);
}

#[test]
fn push_against_the_edge_stops_at_the_capacity() {
    let mut u = node(2, 100, 3);
    let mut v = node(1, 0, 2);
    let mut edge = Edge { u: 1, v: 2, f: 4, c: 10 };
    assert!(push(&mut u, &mut v, &mut edge));
    assert_eq!(u.e, 86);
    assert_eq!(v.e, 14);
    assert_eq!(edge.f, -10);
}

#[test]
fn no_push_uphill_or_level() {
    let mut u = node(1, 4, 2);
    let mut v = node(2, 0, 2);
    let mut edge = Edge::new(1, 2, 10);
    assert!(!push(&mut u, &mut v, &mut edge));
    assert_eq!(u, node(1, 4, 2));
    assert_eq!(v, node(2, 0, 2));
    assert_eq!(edge, Edge::new(1, 2, 10));
    let mut w = node(2, 0, 5);
    assert!(!push(&mut u, &mut w, &mut edge));
    assert_eq!(edge.f, 0);
}

#[test]
fn no_push_without_excess() {
    let mut u = node(1, 0, 3);
    let mut v = node(2, 0, 0);
    let mut edge = Edge::new(1, 2, 10);
    assert!(!push(&mut u, &mut v, &mut edge));
    assert_eq!(u.e, 0);
    assert_eq!(v.e, 0);
    assert_eq!(edge.f, 0);
}

#[test]
fn no_push_along_a_full_edge() {
    let mut u = node(1, 5, 3);
    let mut v = node(2, 0, 0);
    let mut edge = Edge { u: 1, v: 2, f: 10, c: 10 };
    assert!(!push(&mut u, &mut v, &mut edge));
    assert_eq!(u.e, 5);
    assert_eq!(v.e, 0);
    assert_eq!(edge.f, 10);
}

#[test]
fn relabel_raises_by_one() {
    let mut u = node(1, 5, 3);
    relabel(&mut u);
    assert_eq!(u, node(1, 5, 4));
}

#[test]
fn flood_sends_the_full_capacity() {
    let mut s = node(0, 0, 4);
    let mut v = node(2, 1, 0);
    let mut edge = Edge::new(0, 2, 9);
    flood(&mut s, &mut v, &mut edge);
    assert_eq!(s.e, -9);
    assert_eq!(v.e, 10);
    assert_eq!(edge.f, 9);
    let mut back = Edge::new(3, 0, 5);
    let mut w = node(3, 0, 0);
    flood(&mut s, &mut w, &mut back);
    assert_eq!(s.e, -14);
    assert_eq!(w.e, 5);
    assert_eq!(back.f, -5);
}

#[test]
fn new_queue_is_empty() {
    let excess = ExcessQueue::new();
    assert_eq!(excess.len(), 0);
    assert!(!excess.is_done());
}

#[test]
fn enter_excess_takes_an_active_inner_node_once() {
    let mut excess = ExcessQueue::new();
    let mut u = node(2, 5, 0);
    enter_excess(&mut excess, &mut u, 4);
    assert_eq!(excess.len(), 1);
    assert!(u.in_queue);
    enter_excess(&mut excess, &mut u, 4);
    assert_eq!(excess.len(), 1);
    assert!(u.in_queue);
}

#[test]
fn enter_excess_refuses_source_sink_and_idle_nodes() {
    let mut excess = ExcessQueue::new();
    let mut s = node(0, 5, 4);
    let mut t = node(3, 5, 0);
    let mut idle = node(1, 0, 0);
    let mut owing = node(2, -1, 0);
    enter_excess(&mut excess, &mut s, 4);
    enter_excess(&mut excess, &mut t, 4);
    enter_excess(&mut excess, &mut idle, 4);
    enter_excess(&mut excess, &mut owing, 4);
    assert_eq!(excess.len(), 0);
    assert!(!s.in_queue && !t.in_queue && !idle.in_queue && !owing.in_queue);
}

#[test]
fn leave_excess_hands_out_the_oldest_first() {
    let mut excess = ExcessQueue::new();
    let mut nodes = vec![node(0, -9, 4), node(1, 4, 0), node(2, 5, 0), node(3, 0, 0)];
    let mut a = nodes[2];
    enter_excess(&mut excess, &mut a, 4);
    nodes[2] = a;
    let mut b = nodes[1];
    enter_excess(&mut excess, &mut b, 4);
    nodes[1] = b;
    assert!(nodes[1].in_queue && nodes[2].in_queue);
    assert_eq!(leave_excess(&mut excess, &mut nodes, 4), Turn::Work(2));
    assert!(!nodes[2].in_queue);
    assert!(nodes[1].in_queue);
    assert_eq!(leave_excess(&mut excess, &mut nodes, 4), Turn::Work(1));
    assert!(!nodes[1].in_queue);
    assert_eq!(excess.len(), 0);
    assert_eq!(leave_excess(&mut excess, &mut nodes, 4), Turn::Wait);
    assert!(!excess.is_done());
}

#[test]
fn leave_excess_announces_the_end_when_balanced() {
    let mut excess = ExcessQueue::new();
    let mut nodes = vec![node(0, -7, 3), node(1, 0, 1), node(2, 7, 0)];
    assert_eq!(leave_excess(&mut excess, &mut nodes, 3), Turn::Done);
    assert!(excess.is_done());
    assert_eq!(leave_excess(&mut excess, &mut nodes, 3), Turn::Done);
    assert!(excess.is_done());
    assert_eq!(nodes[2].e, 7);
}

#[test]
fn are_we_done_compares_sink_and_source() {
    let balanced = vec![node(0, -7, 3), node(1, 0, 1), node(2, 7, 0)];
    assert!(are_we_done(&balanced, 3));
    let under_way = vec![node(0, -7, 3), node(1, 2, 1), node(2, 5, 0)];
    assert!(!are_we_done(&under_way, 3));
    let lowest = vec![node(0, i32::MIN, 2), node(1, i32::MIN, 0)];
    assert!(!are_we_done(&lowest, 2));
    let single = vec![node(0, 0, 1)];
    assert!(are_we_done(&single, 1));
}
