use preflow::{max_flow, Network, Node, Turn};

/// Maximum flow by shortest augmenting paths, on links that carry their
/// capacity in either direction.
fn by_augmenting_paths(n: usize, links: &[(usize, usize, i32)]) -> i64 {
    let mut to: Vec<usize> = Vec::new();
    let mut room: Vec<i64> = Vec::new();
    let mut out: Vec<Vec<usize>> = vec![Vec::new(); n];
    for &(u, v, c) in links {
        out[u].push(to.len());
        to.push(v);
        room.push(c as i64);
        out[v].push(to.len());
        to.push(u);
        room.push(c as i64);
    }
    let (s, t) = (0, n - 1);
    if s == t {
        return 0;
    }
    let mut total: i64 = 0;
    loop {
        let mut via: Vec<Option<usize>> = vec![None; n];
        let mut seen = vec![false; n];
        seen[s] = true;
        let mut order = vec![s];
        let mut head = 0;
        while head < order.len() && !seen[t] {
            let x = order[head];
            head += 1;
            for &a in &out[x] {
                let y = to[a];
                if room[a] > 0 && !seen[y] {
                    seen[y] = true;
                    via[y] = Some(a);
                    order.push(y);
                }
            }
        }
        if !seen[t] {
            return total;
        }
        let mut least = i64::MAX;
        let mut y = t;
        while let Some(a) = via[y] {
            least = least.min(room[a]);
            y = to[a ^ 1];
        }
        let mut y = t;
        while let Some(a) = via[y] {
            room[a] -= least;
            room[a ^ 1] += least;
            y = to[a ^ 1];
        }
        total += least;
    }
}

struct Dice(u64);

impl Dice {
    fn roll(&mut self, below: usize) -> usize {
        self.0 = self.0.wrapping_mul(6364136223846793005).wrapping_add(1442695040888963407);
        ((self.0 >> 33) as usize) % below
    }
}

fn random_links(dice: &mut Dice, n: usize, m: usize, top: usize) -> Vec<(usize, usize, i32)> {
    let mut links = Vec::new();
    while links.len() < m {
        let u = dice.roll(n);
        let v = dice.roll(n);
        if u != v {
            links.push((u, v, dice.roll(top + 1) as i32));
        }
    }
    links
}

fn net_inflow(net: &Network, w: usize) -> i64 {
    let mut sum: i64 = 0;
    for i in 0..net.edge_count() {
        let edge = net.edge(i);
        if edge.v == w {
            sum += edge.f as i64;
        }
        if edge.u == w {
            sum -= edge.f as i64;
        }
    }
    sum
}

fn check_state(net: &Network) {
    for i in 0..net.edge_count() {
        let edge = net.edge(i);
        assert!(-edge.c <= edge.f && edge.f <= edge.c);
    }
    for w in 0..net.node_count() {
        assert_eq!(net.node(w).e as i64, net_inflow(net, w));
    }
}

fn heights(net: &Network) -> Vec<i32> {
    (0..net.node_count()).map(|w| net.node(w).h).collect()
}

#[test]
fn four_node_network() {
    let links = vec![(0, 1, 10), (0, 2, 5), (1, 2, 3), (1, 3, 4), (2, 3, 9)];
    assert_eq!(by_augmenting_paths(4, &links), 12);
    assert_eq!(max_flow(4, &links), Ok(12));
}

#[test]
fn four_node_network_without_the_cross_link() {
    let links = vec![(0, 1, 10), (0, 2, 5), (1, 3, 4), (2, 3, 9)];
    assert_eq!(max_flow(4, &links), Ok(9));
}

#[test]
fn single_direct_edge() {
    assert_eq!(max_flow(2, &vec![(0, 1, 7)]), Ok(7));
    assert_eq!(max_flow(6, &vec![(0, 5, 7)]), Ok(7));
    assert_eq!(max_flow(6, &vec![(5, 0, 7)]), Ok(7));
}

#[test]
fn disconnected_sink() {
    assert_eq!(max_flow(4, &vec![(0, 1, 10), (1, 2, 3), (0, 2, 5)]), Ok(0));
    assert_eq!(max_flow(3, &vec![]), Ok(0));
    assert_eq!(max_flow(4, &vec![(2, 3, 8)]), Ok(0));
}

#[test]
fn single_node_network() {
    assert_eq!(max_flow(1, &vec![]), Ok(0));
}

#[test]
fn parallel_and_empty_links() {
    let links = vec![(0, 1, 3), (1, 0, 4), (0, 1, 0), (1, 2, 5), (2, 1, 1), (1, 2, 0)];
    assert_eq!(max_flow(3, &links), Ok(6));
}

#[test]
fn chain_is_limited_by_its_narrowest_link() {
    let links = vec![(0, 1, 8), (1, 2, 3), (2, 3, 6), (3, 4, 9)];
    assert_eq!(max_flow(5, &links), Ok(3));
}

#[test]
fn flow_may_run_against_the_way_a_link_was_given() {
    let links = vec![(1, 0, 5), (2, 1, 4), (3, 2, 6)];
    assert_eq!(max_flow(4, &links), Ok(4));
}

#[test]
fn run_leaves_a_flow_behind() {
    let links = vec![(0, 1, 10), (0, 2, 5), (1, 2, 3), (1, 3, 4), (2, 3, 9)];
    let mut net = Network::new(4, &links).unwrap();
    net.initial_pushes();
    check_state(&net);
    let flow = net.run();
    assert_eq!(flow, 12);
    assert_eq!(net.flow(), 12);
    assert!(net.is_done());
    assert_eq!(net.pending(), 0);
    check_state(&net);
    assert_eq!(net.node(0).e, -12);
    for w in 1..3 {
        assert_eq!(net.node(w).e, 0);
        assert!(!net.node(w).in_queue);
        assert_eq!(net_inflow(&net, w), 0);
    }
}

#[test]
fn discharge_step_by_step() {
    let links = vec![(0, 1, 10), (0, 2, 5), (1, 2, 3), (1, 3, 4), (2, 3, 9)];
    let mut net = Network::new(4, &links).unwrap();
    net.initial_pushes();
    assert_eq!(net.next_turn(), Turn::Work(1));
    assert_eq!(net.node(1), Node { i: 1, e: 10, h: 0, in_queue: false });
    net.discharge(1);
    // Nothing runs downhill from a node at height zero: it is raised.
    assert_eq!(net.node(1), Node { i: 1, e: 10, h: 1, in_queue: true });
    assert_eq!(net.next_turn(), Turn::Work(2));
    net.discharge(2);
    assert_eq!(net.node(2), Node { i: 2, e: 5, h: 1, in_queue: true });
    assert_eq!(net.next_turn(), Turn::Work(1));
    net.discharge(1);
    // Level with node 2 and below the source: only the sink takes anything.
    assert_eq!(net.edge(0).f, 10);
    assert_eq!(net.edge(2).f, 0);
    assert_eq!(net.edge(3).f, 4);
    assert_eq!(net.node(1), Node { i: 1, e: 6, h: 1, in_queue: true });
    assert_eq!(net.node(3).e, 4);
    assert_eq!(net.next_turn(), Turn::Work(2));
    net.discharge(2);
    assert_eq!(net.edge(4).f, 5);
    assert_eq!(net.node(2), Node { i: 2, e: 0, h: 1, in_queue: false });
    assert_eq!(net.node(3).e, 9);
    assert_eq!(net.pending(), 1);
}

#[test]
fn discharge_leaves_source_sink_and_idle_nodes_alone() {
    let links = vec![(0, 1, 10), (1, 2, 3), (2, 3, 9)];
    let mut net = Network::new(4, &links).unwrap();
    net.initial_pushes();
    let before: Vec<Node> = (0..4).map(|w| net.node(w)).collect();
    net.discharge(0);
    net.discharge(3);
    net.discharge(2);
    let after: Vec<Node> = (0..4).map(|w| net.node(w)).collect();
    assert_eq!(before, after);
    assert_eq!(net.edge(1).f, 0);
    assert_eq!(net.pending(), 1);
}

#[test]
fn heights_never_fall() {
    let mut dice = Dice(11);
    let links = random_links(&mut dice, 12, 30, 20);
    let mut net = Network::new(12, &links).unwrap();
    net.initial_pushes();
    let mut last = heights(&net);
    loop {
        let turn = net.next_turn();
        assert_eq!(heights(&net), last);
        match turn {
            Turn::Work(u) => net.discharge(u),
            _ => break,
        }
        check_state(&net);
        let now = heights(&net);
        for w in 0..12 {
            assert!(now[w] >= last[w]);
            assert!(now[w] <= 23);
        }
        last = now;
    }
    assert_eq!(net.flow() as i64, by_augmenting_paths(12, &links));
}

#[test]
fn end_is_announced_only_when_inner_nodes_are_empty() {
    let mut dice = Dice(5);
    let links = random_links(&mut dice, 10, 25, 9);
    let mut net = Network::new(10, &links).unwrap();
    net.initial_pushes();
    loop {
        match net.next_turn() {
            Turn::Work(u) => net.discharge(u),
            Turn::Wait => panic!("a node holds excess and is not in the queue"),
            Turn::Done => break,
        }
    }
    for w in 1..9 {
        assert_eq!(net.node(w).e, 0);
        assert!(!net.node(w).in_queue);
    }
    assert_eq!(net.node(9).e, -net.node(0).e);
}

#[test]
fn asking_again_after_the_end_changes_nothing() {
    let links = vec![(0, 1, 10), (0, 2, 5), (1, 2, 3), (1, 3, 4), (2, 3, 9)];
    let mut net = Network::new(4, &links).unwrap();
    net.initial_pushes();
    assert_eq!(net.run(), 12);
    let nodes: Vec<Node> = (0..4).map(|w| net.node(w)).collect();
    for _ in 0..3 {
        assert_eq!(net.next_turn(), Turn::Done);
        assert!(net.is_done());
        assert_eq!(net.flow(), 12);
        assert_eq!(net.pending(), 0);
        let now: Vec<Node> = (0..4).map(|w| net.node(w)).collect();
        assert_eq!(now, nodes);
    }
    assert_eq!(net.run(), 12);
}

#[test]
fn waits_while_excess_is_held_outside_the_queue() {
    let links = vec![(0, 1, 10), (1, 2, 3)];
    let mut net = Network::new(3, &links).unwrap();
    net.initial_pushes();
    assert_eq!(net.next_turn(), Turn::Work(1));
    // Node 1 has left the queue and still holds what the source sent.
    assert_eq!(net.next_turn(), Turn::Wait);
    assert!(!net.is_done());
    net.discharge(1);
    assert_eq!(net.next_turn(), Turn::Work(1));
}

#[test]
fn any_order_of_discharges_gives_the_same_flow() {
    let mut dice = Dice(2024);
    for round in 0..20 {
        let n = 2 + dice.roll(14);
        let m = dice.roll(40);
        let links = random_links(&mut dice, n, m, 30);
        let expected = by_augmenting_paths(n, &links);
        assert_eq!(max_flow(n, &links), Ok(expected as i32));
        // Discharge the waiting nodes in an order that the dice choose.
        let mut net = Network::new(n, &links).unwrap();
        net.initial_pushes();
        let mut held: Vec<usize> = Vec::new();
        loop {
            while let Turn::Work(u) = net.next_turn() {
                held.push(u);
            }
            if held.is_empty() {
                break;
            }
            let u = held.swap_remove(dice.roll(held.len()));
            net.discharge(u);
            check_state(&net);
        }
        assert_eq!(net.next_turn(), Turn::Done, "round {}", round);
        assert_eq!(net.flow() as i64, expected);
    }
}

#[test]
fn random_networks_agree_with_augmenting_paths() {
    let mut dice = Dice(7);
    for _ in 0..60 {
        let n = 1 + dice.roll(40);
        let m = if n == 1 { 0 } else { dice.roll(120) };
        let links = random_links(&mut dice, n, m, 50);
        let expected = by_augmenting_paths(n, &links);
        assert_eq!(max_flow(n, &links), Ok(expected as i32));
    }
}

#[test]
fn larger_random_networks_agree_with_augmenting_paths() {
    let mut dice = Dice(99);
    for _ in 0..4 {
        let n = 100 + dice.roll(150);
        let m = 200 + dice.roll(300);
        let links = random_links(&mut dice, n, m, 1000);
        let expected = by_augmenting_paths(n, &links);
        assert_eq!(max_flow(n, &links), Ok(expected as i32));
    }
}
