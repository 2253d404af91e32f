//! The network itself: node and edge arenas, the index of the edges around
//! each node, and the queue of active nodes.

use vstd::prelude::*;
use crate::cuts::lemma_drained_is_max_flow;
use crate::flow::{capacities_at, capacity_at, flow_value, is_max_flow, same_network};
use crate::model::{
    buildable, edge_of, fresh, fresh_node, incident, lemma_incident, lemma_incident_same,
    max_flow_is, sound, State, MAX_NODES,
};
use crate::potential::{lemma_potential_nonneg, lift, slack, slope};
use crate::queue::{enter_excess, leave_excess, ExcessQueue, Turn};
use crate::records::{amount, flood, push, relabel, Edge, Node};
use crate::rounds::{lemma_discharge, lemma_leave, lemma_scan, lemma_scan_done, not_lower};
use crate::seeding::{lemma_fresh, lemma_seed, lemma_seed_step, lemma_seeded, seeding};
use crate::steps::{lemma_enqueue, lemma_push, lemma_relabel, stuck};
use crate::sums::lemma_sum_push;

verus! {

/// A flow network with its queue of active nodes. Node `0` is the source and
/// the last node is the sink.
pub struct Network {
    nodes: Vec<Node>,
    edges: Vec<Edge>,
    adj: Vec<Vec<usize>>,
    excess: ExcessQueue,
}

/// Why a network could not be built.
#[derive(Clone, Copy, Debug, PartialEq, Eq, Structural)]
pub enum BuildError {
    /// A network needs at least one node.
    NoNodes,
    /// More nodes than `MAX_NODES`.
    TooManyNodes,
    /// The link at this position names a node that does not exist, joins a
    /// node to itself, or has a negative capacity.
    BadLink(usize),
    /// The edges around the source carry more than fits in 32 bits.
    SourceOverflow,
}

/// The fault that `e` names is the first one that stands in the way of
/// building the network: the number of nodes is looked at first, then the
/// links in order, then what the source can send out.
pub open spec fn explains(e: BuildError, n: int, links: Seq<(usize, usize, i32)>) -> bool {
    match e {
        BuildError::NoNodes => n == 0,
        BuildError::TooManyNodes => n > MAX_NODES,
        BuildError::BadLink(i) => {
            &&& 1 <= n <= MAX_NODES
            &&& i < links.len()
            &&& !sound(n, links[i as int])
            &&& forall|j: int| 0 <= j < i ==> sound(n, #[trigger] links[j])
        },
        BuildError::SourceOverflow => {
            &&& 1 <= n <= MAX_NODES
            &&& forall|j: int| 0 <= j < links.len() ==> sound(n, #[trigger] links[j])
            &&& capacity_at(fresh(n, links).edges, 0) > i32::MAX
        },
    }
}

impl View for Network {
    type V = State;

    closed spec fn view(&self) -> State {
        State {
            nodes: self.nodes@,
            edges: self.edges@,
            queue: self.excess@,
            done: self.excess.finished(),
        }
    }
}

/// Appending an edge adds its capacity to the capacity around each node that
/// it touches.
proof fn lemma_capacity_push(edges: Seq<Edge>, edge: Edge, w: int)
    ensures
        capacity_at(edges.push(edge), w) == capacity_at(edges, w) + (if edge.touches(w) {
            edge.c as int
        } else {
            0
        }),
{
    let x = if edge.touches(w) {
        edge.c as int
    } else {
        0
    };
    assert(capacities_at(edges.push(edge), w) =~= capacities_at(edges, w).push(x));
    lemma_sum_push(capacities_at(edges, w), x);
}

/// Appending an edge appends its index to the list of each node it touches.
proof fn lemma_incident_push(edges: Seq<Edge>, edge: Edge, w: int)
    ensures
        incident(edges.push(edge), w) == if edge.touches(w) {
            incident(edges, w).push(edges.len() as usize)
        } else {
            incident(edges, w)
        },
{
    assert(edges.push(edge).drop_last() =~= edges);
}

impl Network {
    /// The index lists, for each node, the edges around it in rising order.
    pub closed spec fn indexed(&self) -> bool {
        &&& self.adj@.len() == self.nodes@.len()
        &&& forall|w: int|
            0 <= w < self.adj@.len() ==> (#[trigger] self.adj@[w])@ == incident(self.edges@, w)
    }

    /// The index is in order and the state meets the invariant.
    pub open spec fn wf(&self) -> bool {
        self.indexed() && self@.inv()
    }

    /// Builds the network of `n` nodes that `links` describes, each link
    /// giving two nodes and the capacity between them. Nothing flows yet.
    pub fn new(n: usize, links: &Vec<(usize, usize, i32)>) -> (built: Result<Network, BuildError>)
        ensures
            match built {
                Ok(net) => buildable(n as int, links@) && net@ == fresh(n as int, links@)
                    && net.indexed(),
                Err(e) => !buildable(n as int, links@) && explains(e, n as int, links@),
            },
    {
        if n == 0 {
            return Err(BuildError::NoNodes);
        }
        if n > MAX_NODES {
            return Err(BuildError::TooManyNodes);
        }
        let mut nodes: Vec<Node> = Vec::new();
        let mut adj: Vec<Vec<usize>> = Vec::new();
        nodes.push(Node::new2(0, n as i32));
        adj.push(Vec::new());
        let mut w: usize = 1;
        while w < n
            invariant
                1 <= w <= n <= MAX_NODES,
                nodes@.len() == w,
                adj@.len() == w,
                forall|x: int| 0 <= x < w ==> #[trigger] nodes@[x] == fresh_node(n as int, x),
                forall|x: int| 0 <= x < w ==> (#[trigger] adj@[x])@ == Seq::<usize>::empty(),
            decreases n - w,
        {
            nodes.push(Node::new(w));
            adj.push(Vec::new());
            w = w + 1;
        }
        let m = links.len();
        let mut edges: Vec<Edge> = Vec::new();
        let mut room: i64 = 0;
        let mut over = false;
        let mut i: usize = 0;
        while i < m
            invariant
                1 <= n <= MAX_NODES,
                m == links@.len(),
                i <= m,
                nodes@.len() == n,
                adj@.len() == n,
                edges@.len() == i,
                forall|j: int| 0 <= j < i ==> sound(n as int, #[trigger] links@[j]),
                forall|j: int| 0 <= j < i ==> #[trigger] edges@[j] == edge_of(links@[j]),
                forall|x: int| 0 <= x < n ==> (#[trigger] adj@[x])@ == incident(edges@, x),
                !over ==> room == capacity_at(edges@, 0) && 0 <= room <= i32::MAX,
                over ==> capacity_at(edges@, 0) > i32::MAX,
            decreases m - i,
        {
            let (u, v, c) = links[i];
            if u >= n || v >= n || u == v || c < 0 {
                return Err(BuildError::BadLink(i));
            }
            let edge = Edge::new(u, v, c);
            proof {
                lemma_capacity_push(edges@, edge, 0);
                assert forall|x: int| 0 <= x < n implies incident(edges@.push(edge), x) == if x == u
                    || x == v {
                    incident(edges@, x).push(i)
                } else {
                    incident(edges@, x)
                } by {
                    lemma_incident_push(edges@, edge, x);
                }
            }
            if !over && (u == 0 || v == 0) {
                room = room + c as i64;
                if room > i32::MAX as i64 {
                    over = true;
                }
            }
            edges.push(edge);
            adj[u].push(i);
            adj[v].push(i);
            i = i + 1;
        }
        if over {
            proof {
                assert(edges@ =~= fresh(n as int, links@).edges);
            }
            return Err(BuildError::SourceOverflow);
        }
        let net = Network { nodes, edges, adj, excess: ExcessQueue::new() };
        proof {
            assert(net.edges@ =~= fresh(n as int, links@).edges);
            assert(net.nodes@ =~= fresh(n as int, links@).nodes);
        }
        Ok(net)
    }

    /// The number of nodes.
    pub fn node_count(&self) -> (n: usize)
        ensures
            n == self@.nodes.len(),
    {
        self.nodes.len()
    }

    /// The number of edges.
    pub fn edge_count(&self) -> (m: usize)
        ensures
            m == self@.edges.len(),
    {
        self.edges.len()
    }

    /// The record of node `w`.
    pub fn node(&self, w: usize) -> (node: Node)
        requires
            w < self@.nodes.len(),
        ensures
            node == self@.nodes[w as int],
    {
        self.nodes[w]
    }

    /// The record of edge `i`.
    pub fn edge(&self, i: usize) -> (edge: Edge)
        requires
            i < self@.edges.len(),
        ensures
            edge == self@.edges[i as int],
    {
        self.edges[i]
    }

    /// The edges around node `w`, by index, in rising order.
    pub fn around(&self, w: usize) -> (list: &Vec<usize>)
        requires
            self.indexed(),
            w < self@.nodes.len(),
        ensures
            list@ == incident(self@.edges, w as int),
    {
        &self.adj[w]
    }

    /// How many nodes are waiting in the queue.
    pub fn pending(&self) -> (len: usize)
        ensures
            len == self@.queue.len(),
    {
        self.excess.len()
    }

    /// Whether the end of the computation has been announced.
    pub fn is_done(&self) -> (done: bool)
        ensures
            done == self@.done,
    {
        self.excess.is_done()
    }

    /// What has arrived at the sink.
    pub fn flow(&self) -> (flow: i32)
        requires
            self@.nodes.len() > 0,
        ensures
            flow == self@.arrived(),
    {
        self.nodes[self.nodes.len() - 1].e
    }

    /// The first pushes: the source fills every edge around it, in the order
    /// of the index, and each node at the other end asks to enter the queue.
    pub fn initial_pushes(&mut self)
        requires
            old(self).indexed(),
            seeding(old(self)@, 0),
        ensures
            final(self).wf(),
            final(self)@ == old(self)@.seeded(),
            final(self)@.settled(),
            same_network(old(self)@.edges, final(self)@.edges),
    {
        let n = self.nodes.len();
        let len = self.adj[0].len();
        let ghost start = self@;
        let ghost around = incident(start.edges, 0);
        let mut k: usize = 0;
        while k < len
            invariant
                self.indexed(),
                n == self.nodes@.len(),
                seeding(start, 0),
                around == incident(start.edges, 0),
                len == around.len(),
                k <= len,
                self@ == start.seed(around, k as nat),
            decreases len - k,
        {
            let ghost cur = self@;
            proof {
                lemma_seed(start, k as nat);
                lemma_seed_step(cur, k as int);
            }
            let i = self.adj[0][k];
            let mut edge = self.edges[i];
            let v = edge.other(0);
            let mut s_node = self.nodes[0];
            let mut v_node = self.nodes[v];
            assert(s_node.i == 0 && v_node.i == v);
            flood(&mut s_node, &mut v_node, &mut edge);
            self.edges.set(i, edge);
            self.nodes.set(0, s_node);
            enter_excess(&mut self.excess, &mut v_node, n);
            self.nodes.set(v, v_node);
            proof {
                let next = cur.seed_step(i as int);
                assert(self.nodes@ =~= next.nodes);
                assert(self.edges@ =~= next.edges);
                assert(self.excess@ =~= next.queue);
                assert forall|w: int| 0 <= w < self.adj@.len() implies (#[trigger] self.adj@[w])@
                    == incident(self.edges@, w) by {
                    lemma_incident_same(cur.edges, self.edges@, w);
                }
            }
            k = k + 1;
        }
        proof {
            lemma_seed(start, len as nat);
            lemma_seeded(self@);
        }
    }

    /// Tells a worker what to do next: the oldest waiting node leaves the
    /// queue to be discharged; with nothing waiting, the worker is told to
    /// stop if the flow is balanced, and to wait if it is not.
    pub fn next_turn(&mut self) -> (turn: Turn)
        requires
            old(self).wf(),
        ensures
            final(self).wf(),
            final(self)@ == old(self)@.leave(),
            turn == old(self)@.turn(),
            not_lower(old(self)@, final(self)@),
            turn == Turn::Done ==> forall|w: int|
                0 < w < final(self)@.n() - 1 ==> (#[trigger] final(self)@.nodes[w]).e == 0,
            old(self)@.settled() ==> turn != Turn::Wait,
            old(self)@.settled() ==> forall|u: usize|
                turn == Turn::Work(u) ==> final(self)@.settled_but(u as int),
    {
        let n = self.nodes.len();
        proof {
            lemma_leave(self@);
            assert forall|k: int| 0 <= k < self.excess@.len() implies self.excess@[k]
                < self.nodes.len() by {
                assert(0 < self@.queue[k] < n - 1);
            }
        }
        let turn = leave_excess(&mut self.excess, &mut self.nodes, n);
        proof {
            let next = old(self)@.leave();
            assert(self.nodes@ =~= next.nodes);
            assert(self.excess@ =~= next.queue);
            assert forall|w: int| 0 <= w < next.nodes.len() implies (#[trigger] next.nodes[w]).h
                >= old(self)@.nodes[w].h by {
                assert(old(self)@.nodes[w].h == next.nodes[w].h);
            }
        }
        turn
    }

    /// Discharges node `u` once: it pushes what it can along each of its
    /// edges in the order of the index, stopping when it holds no more; if it
    /// could push nothing, it is raised by one level; and if it still holds
    /// excess, it enters the queue again. The source, the sink and a node
    /// without excess are left alone.
    pub fn discharge(&mut self, u: usize)
        requires
            old(self).wf(),
            u < old(self)@.n(),
        ensures
            final(self).wf(),
            final(self)@ == old(self)@.discharge(u as int),
            same_network(old(self)@.edges, final(self)@.edges),
            not_lower(old(self)@, final(self)@),
            old(self)@.settled_but(u as int) ==> final(self)@.settled(),
    {
        let n = self.nodes.len();
        let ghost start = self@;
        let ghost around = incident(start.edges, u as int);
        proof {
            lemma_discharge(start, u as int);
        }
        if u == 0 || u == n - 1 {
            return ;
        }
        let len = self.adj[u].len();
        let mut has_pushed = false;
        let mut k: usize = 0;
        while k < len
            invariant_except_break
                k <= len,
                self@ == start.scan(u as int, around, k as nat),
            invariant
                self.indexed(),
                n == self.nodes@.len(),
                0 < u < n - 1,
                start.inv(),
                start.n() == n,
                around == incident(start.edges, u as int),
                len == around.len(),
                has_pushed == (self@.nodes[u as int].e < start.nodes[u as int].e),
            ensures
                self@ == start.scan(u as int, around, len as nat),
            decreases len - k,
        {
            let ghost cur = self@;
            proof {
                lemma_scan(start, u as int, k as nat);
                lemma_incident(start.edges, u as int);
                lemma_incident_same(start.edges, cur.edges, u as int);
                assert(self.adj@[u as int]@ == around);
            }
            let i = self.adj[u][k];
            assert(i == around[k as int]);
            assert(start.edges[i as int].touches(u as int));
            assert(cur.edges[i as int].u == start.edges[i as int].u && cur.edges[i as int].v
                == start.edges[i as int].v) by {
                assert(start.edges[i as int].u == cur.edges[i as int].u);
            }
            let mut u_node = self.nodes[u];
            if u_node.e == 0 {
                proof {
                    lemma_scan_done(start, u as int, around, k as nat, len as nat);
                }
                break ;
            }
            let mut edge = self.edges[i];
            let v = edge.other(u);
            proof {
                lemma_push(cur, u as int, i as int);
            }
            let mut v_node = self.nodes[v];
            assert(u_node.i == u && v_node.i == v);
            let pushed = push(&mut u_node, &mut v_node, &mut edge);
            if pushed {
                self.edges.set(i, edge);
                self.nodes.set(u, u_node);
                enter_excess(&mut self.excess, &mut v_node, n);
                self.nodes.set(v, v_node);
                has_pushed = true;
            }
            proof {
                let next = cur.edge_step(u as int, i as int);
                assert(self.nodes@ =~= next.nodes);
                assert(self.edges@ =~= next.edges);
                assert(self.excess@ =~= next.queue);
                assert(self@ == next);
                lemma_scan(start, u as int, (k + 1) as nat);
                assert forall|w: int| 0 <= w < self.adj@.len() implies (#[trigger] self.adj@[w])@
                    == incident(self.edges@, w) by {
                    lemma_incident_same(cur.edges, self.edges@, w);
                }
            }
            k = k + 1;
        }
        let ghost after = self@;
        proof {
            lemma_scan(start, u as int, len as nat);
        }
        let mut u_node = self.nodes[u];
        if u_node.e > 0 {
            if !has_pushed {
                proof {
                    assert(after == start);
                    assert(stuck(start, u as int)) by {
                        assert forall|i: int|
                            0 <= i < start.edges.len() && (#[trigger] start.edges[i]).touches(
                                u as int,
                            ) implies amount(
                            start.nodes[u as int],
                            start.nodes[start.edges[i].peer(u as int)],
                            start.edges[i],
                        ) == 0 by {
                            lemma_incident(start.edges, u as int);
                            assert(around.contains(i as usize));
                            let j = choose|j: int| 0 <= j < around.len() && around[j] == i as usize;
                            assert(start.edges[around[j] as int] == start.edges[i]);
                        }
                    }
                    lemma_relabel(start, u as int);
                    lemma_enqueue(start.relabel(u as int), u as int);
                }
                relabel(&mut u_node);
            } else {
                proof {
                    lemma_enqueue(after, u as int);
                }
            }
            assert(u_node.i == u);
            enter_excess(&mut self.excess, &mut u_node, n);
            self.nodes.set(u, u_node);
        }
        proof {
            let next = start.discharge(u as int);
            assert(self.nodes@ =~= next.nodes);
            assert(self.edges@ =~= next.edges);
            assert(self.excess@ =~= next.queue);
            assert(self@ == next);
            assert forall|w: int| 0 <= w < self.adj@.len() implies (#[trigger] self.adj@[w])@
                == incident(self.edges@, w) by {
                lemma_incident_same(start.edges, self.edges@, w);
            }
        }
    }

    /// Runs the method to its end, one node at a time, and returns what has
    /// arrived at the sink. That is the value of a maximum flow, and the
    /// edges then carry one.
    pub fn run(&mut self) -> (flow: i32)
        requires
            old(self).wf(),
            old(self)@.settled(),
        ensures
            final(self).wf(),
            final(self)@.done,
            final(self)@.queue.len() == 0,
            flow == final(self)@.arrived(),
            flow == flow_value(final(self)@.edges, final(self)@.n()),
            is_max_flow(final(self)@.edges, final(self)@.n()),
            same_network(old(self)@.edges, final(self)@.edges),
            not_lower(old(self)@, final(self)@),
    {
        let ghost start = self@;
        let n = self.nodes.len();
        loop
            invariant_except_break
                self@.settled(),
            invariant
                self.wf(),
                n == self.nodes@.len(),
                same_network(start.edges, self@.edges),
                not_lower(start, self@),
            ensures
                self@.done,
                self@.queue.len() == 0,
                forall|w: int| 0 < w < self@.n() - 1 ==> (#[trigger] self@.nodes[w]).e == 0,
            decreases slack(self@), slope(self@), lift(self@), self@.queue.len(),
        {
            let ghost before = self@;
            proof {
                lemma_leave(before);
                lemma_potential_nonneg(before);
            }
            let turn = self.next_turn();
            let ghost left = self@;
            match turn {
                Turn::Work(u) => {
                    proof {
                        lemma_discharge(left, u as int);
                    }
                    self.discharge(u);
                    proof {
                        lemma_potential_nonneg(self@);
                        assert(same_network(start.edges, self@.edges)) by {
                            assert forall|j: int| 0 <= j < start.edges.len() implies (
                            #[trigger] start.edges[j]).u == self@.edges[j].u && start.edges[j].v
                                == self@.edges[j].v && start.edges[j].c == self@.edges[j].c by {
                                assert(left.edges[j].u == self@.edges[j].u);
                            }
                        }
                        assert(not_lower(start, self@)) by {
                            assert forall|w: int| 0 <= w < start.nodes.len() implies (
                            #[trigger] self@.nodes[w]).h >= start.nodes[w].h by {
                                assert(before.nodes[w].h >= start.nodes[w].h);
                                assert(before.nodes[w].h == left.nodes[w].h);
                                assert(self@.nodes[w].h >= left.nodes[w].h);
                            }
                        }
                    }
                },
                _ => {
                    break ;
                },
            }
        }
        proof {
            lemma_drained_is_max_flow(self@);
        }
        self.nodes[n - 1].e
    }
}

/// The value of a maximum flow from the first to the last of `n` nodes over
/// the given links, each link giving two nodes and the capacity between them.
pub fn max_flow(n: usize, links: &Vec<(usize, usize, i32)>) -> (found: Result<i32, BuildError>)
    ensures
        match found {
            Ok(value) => buildable(n as int, links@) && max_flow_is(n as int, links@, value as int),
            Err(e) => !buildable(n as int, links@) && explains(e, n as int, links@),
        },
{
    match Network::new(n, links) {
        Ok(net) => {
            let mut net = net;
            proof {
                lemma_fresh(n as int, links@);
            }
            net.initial_pushes();
            let value = net.run();
            proof {
                let first = fresh(n as int, links@).edges;
                let around = incident(first, 0);
                lemma_seed(fresh(n as int, links@), around.len());
                assert(net@.n() == n);
                assert(same_network(net@.edges, first)) by {
                    let mid = fresh(n as int, links@).seeded().edges;
                    assert forall|i: int| 0 <= i < net@.edges.len() implies (#[trigger] net@.edges[i]).u
                        == first[i].u && net@.edges[i].v == first[i].v && net@.edges[i].c
                        == first[i].c by {
                        assert(first[i].u == mid[i].u);
                        assert(mid[i].u == net@.edges[i].u);
                    }
                }
            }
            Ok(value)
        },
        Err(e) => Err(e),
    }
}

} // verus!
