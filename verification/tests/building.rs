use preflow::model::MAX_NODES;
use preflow::{max_flow, BuildError, Edge, Network, Node};

#[test]
fn builds_nodes_edges_and_index() {
    let links = vec![(0, 1, 10), (0, 2, 5), (1, 2, 3), (1, 3, 4), (2, 3, 9)];
    let net = Network::new(4, &links).unwrap();
    assert_eq!(net.node_count(), 4);
    assert_eq!(net.edge_count(), 5);
    assert_eq!(net.node(0), Node { i: 0, e: 0, h: 4, in_queue: false });
    for w in 1..4 {
        assert_eq!(net.node(w), Node { i: w, e: 0, h: 0, in_queue: false });
    }
    assert_eq!(net.edge(3), Edge { u: 1, v: 3, f: 0, c: 4 });
    assert_eq!(net.around(0), &vec![0, 1]);
    assert_eq!(net.around(1), &vec![0, 2, 3]);
    assert_eq!(net.around(2), &vec![1, 2, 4]);
    assert_eq!(net.around(3), &vec![3, 4]);
    assert_eq!(net.pending(), 0);
    assert!(!net.is_done());
    assert_eq!(net.flow(), 0);
}

#[test]
fn no_nodes_is_refused() {
    assert_eq!(Network::new(0, &vec![]).err(), Some(BuildError::NoNodes));
    assert_eq!(max_flow(0, &vec![(0, 0, 1)]), Err(BuildError::NoNodes));
}

#[test]
fn too_many_nodes_is_refused() {
    assert_eq!(Network::new(MAX_NODES + 1, &vec![]).err(), Some(BuildError::TooManyNodes));
    assert_eq!(max_flow(usize::MAX, &vec![]), Err(BuildError::TooManyNodes));
}

#[test]
fn unknown_endpoint_is_refused() {
    let links = vec![(0, 1, 1), (1, 3, 1), (0, 2, 1)];
    assert_eq!(Network::new(3, &links).err(), Some(BuildError::BadLink(1)));
    let links = vec![(3, 1, 1)];
    assert_eq!(max_flow(3, &links), Err(BuildError::BadLink(0)));
}

#[test]
fn loop_on_one_node_is_refused() {
    let links = vec![(0, 1, 1), (1, 2, 1), (2, 2, 1)];
    assert_eq!(Network::new(3, &links).err(), Some(BuildError::BadLink(2)));
}

#[test]
fn negative_capacity_is_refused() {
    let links = vec![(0, 1, -1), (5, 5, 1)];
    assert_eq!(Network::new(3, &links).err(), Some(BuildError::BadLink(0)));
}

#[test]
fn first_bad_link_wins_over_source_overflow() {
    let links = vec![(0, 1, i32::MAX), (2, 0, i32::MAX), (1, 1, 0)];
    assert_eq!(Network::new(3, &links).err(), Some(BuildError::BadLink(2)));
}

#[test]
fn source_overflow_is_refused() {
    let links = vec![(0, 1, i32::MAX), (1, 2, 5), (2, 0, 1)];
    assert_eq!(Network::new(3, &links).err(), Some(BuildError::SourceOverflow));
    assert_eq!(max_flow(3, &links), Err(BuildError::SourceOverflow));
}

#[test]
fn source_may_carry_exactly_the_largest_value() {
    let links = vec![(0, 1, i32::MAX - 1), (1, 2, i32::MAX), (2, 0, 1), (2, 1, i32::MAX)];
    assert_eq!(max_flow(3, &links), Ok(i32::MAX));
}

#[test]
fn initial_pushes_fill_the_edges_around_the_source() {
    let links = vec![(0, 1, 10), (2, 0, 5), (1, 2, 3), (1, 3, 4), (2, 3, 9), (0, 3, 2), (0, 1, 0)];
    let mut net = Network::new(4, &links).unwrap();
    net.initial_pushes();
    assert_eq!(net.edge(0).f, 10);
    assert_eq!(net.edge(1).f, -5);
    assert_eq!(net.edge(2).f, 0);
    assert_eq!(net.edge(5).f, 2);
    assert_eq!(net.edge(6).f, 0);
    assert_eq!(net.node(0), Node { i: 0, e: -17, h: 4, in_queue: false });
    assert_eq!(net.node(1), Node { i: 1, e: 10, h: 0, in_queue: true });
    assert_eq!(net.node(2), Node { i: 2, e: 5, h: 0, in_queue: true });
    assert_eq!(net.node(3), Node { i: 3, e: 2, h: 0, in_queue: false });
    assert_eq!(net.pending(), 2);
    assert!(!net.is_done());
}
