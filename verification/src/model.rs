//! The network as a mathematical value: its state, the conditions that every
//! reachable state meets, and the steps that lead from one state to the next.

use vstd::prelude::*;
use crate::flow::{
    capacity_at, capacity_respected, flow_value, is_max_flow, linked, net_inflow, same_network,
};
use crate::queue::{may_enter, balanced, Turn};
use crate::records::{amount, Edge, Node};

verus! {

/// The largest network that can be built: heights come close to twice the
/// number of nodes and are kept in 32 bits.
pub const MAX_NODES: usize = 1073741823;

/// The edges that touch node `w`, by index, in rising order.
pub open spec fn incident(edges: Seq<Edge>, w: int) -> Seq<usize>
    decreases edges.len(),
{
    if edges.len() == 0 {
        Seq::empty()
    } else if edges.last().touches(w) {
        incident(edges.drop_last(), w).push((edges.len() - 1) as usize)
    } else {
        incident(edges.drop_last(), w)
    }
}

/// All that changes while the method runs, and the edges' fixed data with it.
/// Node `0` is the source and the last node is the sink.
pub struct State {
    pub nodes: Seq<Node>,
    pub edges: Seq<Edge>,
    pub queue: Seq<usize>,
    pub done: bool,
}

impl State {
    /// The number of nodes.
    pub open spec fn n(self) -> int {
        self.nodes.len() as int
    }

    /// Whether `w` is the source or the sink.
    pub open spec fn terminal(self, w: int) -> bool {
        w == 0 || w == self.n() - 1
    }

    /// What never changes is in order: the nodes know their own index, the
    /// edges join different nodes of the network, capacities are not
    /// negative, and what the source can send out fits in 32 bits.
    pub open spec fn shaped(self) -> bool {
        &&& 1 <= self.n() <= MAX_NODES
        &&& self.edges.len() <= usize::MAX
        &&& forall|w: int| 0 <= w < self.n() ==> (#[trigger] self.nodes[w]).i == w
        &&& linked(self.edges, self.n())
        &&& forall|i: int| 0 <= i < self.edges.len() ==> (#[trigger] self.edges[i]).c >= 0
        &&& capacity_at(self.edges, 0) <= i32::MAX
    }

    /// The edges carry a preflow: capacities are respected, each node's
    /// excess is what enters it minus what leaves it, and no node but the
    /// source has given out more than it received.
    pub open spec fn preflow(self) -> bool {
        &&& capacity_respected(self.edges)
        &&& forall|w: int|
            0 <= w < self.n() ==> (#[trigger] self.nodes[w]).e == net_inflow(self.edges, w)
        &&& forall|w: int| 0 < w < self.n() ==> (#[trigger] self.nodes[w]).e >= 0
    }

    /// Along edge `i`, in each direction that has room left, the height drops
    /// by one at most.
    pub open spec fn arc_ok(self, i: int) -> bool {
        let edge = self.edges[i];
        let hu = self.nodes[edge.u as int].h;
        let hv = self.nodes[edge.v as int].h;
        &&& edge.c - edge.f > 0 ==> hu <= hv + 1
        &&& edge.c + edge.f > 0 ==> hv <= hu + 1
    }

    /// The heights form a valid labelling: the source stands at the number of
    /// nodes, the sink at zero, no height is negative, and no edge with room
    /// left runs down by more than one.
    pub open spec fn labelled(self) -> bool {
        &&& self.nodes[0].h == self.n()
        &&& self.n() > 1 ==> self.nodes[self.n() - 1].h == 0
        &&& forall|w: int| 0 <= w < self.n() ==> (#[trigger] self.nodes[w]).h >= 0
        &&& forall|i: int| 0 <= i < self.edges.len() ==> #[trigger] self.arc_ok(i)
    }

    /// Every node stands below twice the number of nodes.
    pub open spec fn capped(self) -> bool {
        forall|w: int| 0 <= w < self.n() ==> (#[trigger] self.nodes[w]).h <= 2 * self.n() - 1
    }

    /// The queue and the marks agree: the queue holds no node twice, neither
    /// the source nor the sink, and exactly the marked nodes.
    pub open spec fn queued(self) -> bool {
        &&& self.queue.no_duplicates()
        &&& forall|k: int| 0 <= k < self.queue.len() ==> 0 < #[trigger] self.queue[k] < self.n() - 1
        &&& forall|w: int|
            0 <= w < self.n() ==> ((#[trigger] self.nodes[w]).in_queue <==> self.queue.contains(
                w as usize,
            ))
    }

    /// What holds in every state that the method reaches.
    pub open spec fn inv(self) -> bool {
        &&& self.shaped()
        &&& self.preflow()
        &&& self.labelled()
        &&& self.capped()
        &&& self.queued()
    }

    /// Every inner node that holds excess is waiting in the queue, but
    /// possibly `u`.
    pub open spec fn settled_but(self, u: int) -> bool {
        forall|w: int|
            0 < w < self.n() - 1 && w != u && (#[trigger] self.nodes[w]).e > 0
                ==> self.nodes[w].in_queue
    }

    /// Every inner node that holds excess is waiting in the queue.
    pub open spec fn settled(self) -> bool {
        forall|w: int|
            0 < w < self.n() - 1 && (#[trigger] self.nodes[w]).e > 0 ==> self.nodes[w].in_queue
    }

    /// All that left the source has arrived at the sink.
    pub open spec fn converged(self) -> bool {
        balanced(self.nodes[0], self.nodes[self.n() - 1])
    }

    /// What has arrived at the sink.
    pub open spec fn arrived(self) -> int {
        self.nodes[self.n() - 1].e as int
    }

    /// The state after node `u` has pushed what it can along edge `i`.
    pub open spec fn push(self, u: int, i: int) -> State {
        let v = self.edges[i].peer(u);
        let d = amount(self.nodes[u], self.nodes[v], self.edges[i]);
        State {
            nodes: self.nodes.update(u, self.nodes[u].gaining(-d)).update(
                v,
                self.nodes[v].gaining(d),
            ),
            edges: self.edges.update(i, self.edges[i].carrying(u, d)),
            ..self
        }
    }

    /// The state after node `w` has asked to enter the queue.
    pub open spec fn enqueue(self, w: int) -> State {
        if may_enter(self.nodes[w], self.n()) {
            State {
                nodes: self.nodes.update(w, self.nodes[w].marked(true)),
                queue: self.queue.push(self.nodes[w].i),
                ..self
            }
        } else {
            self
        }
    }

    /// The state after node `u` has been raised by one level.
    pub open spec fn relabel(self, u: int) -> State {
        State { nodes: self.nodes.update(u, self.nodes[u].raised()), ..self }
    }

    /// The state after node `u` has looked at edge `i`: if anything can be
    /// pushed, it is, and the node at the other end asks to enter the queue.
    pub open spec fn edge_step(self, u: int, i: int) -> State {
        let v = self.edges[i].peer(u);
        if amount(self.nodes[u], self.nodes[v], self.edges[i]) > 0 {
            self.push(u, i).enqueue(v)
        } else {
            self
        }
    }

    /// The state after node `u` has looked at the first `k` of the edges in
    /// `around`, in order.
    pub open spec fn scan(self, u: int, around: Seq<usize>, k: nat) -> State
        decreases k,
    {
        if k == 0 {
            self
        } else {
            self.scan(u, around, (k - 1) as nat).edge_step(u, around[k - 1] as int)
        }
    }

    /// The state after node `u` has been discharged once: it looks at all its
    /// edges in turn; if nothing could be pushed and it holds excess, it is
    /// raised; and if it still holds excess, it enters the queue again. The
    /// source and the sink are never discharged.
    pub open spec fn discharge(self, u: int) -> State {
        let around = incident(self.edges, u);
        let after = self.scan(u, around, around.len());
        if self.terminal(u) {
            self
        } else if after.nodes[u].e <= 0 {
            after
        } else if after.nodes[u].e == self.nodes[u].e {
            after.relabel(u).enqueue(u)
        } else {
            after.enqueue(u)
        }
    }

    /// What a worker that asks for work is told.
    pub open spec fn turn(self) -> Turn {
        if self.queue.len() > 0 {
            Turn::Work(self.queue[0])
        } else if self.converged() {
            Turn::Done
        } else {
            Turn::Wait
        }
    }

    /// The state after a worker has asked for work: the oldest waiting node
    /// leaves the queue; with nothing waiting and the flow balanced, the end
    /// is announced.
    pub open spec fn leave(self) -> State {
        if self.queue.len() > 0 {
            let u = self.queue[0] as int;
            State {
                nodes: self.nodes.update(u, self.nodes[u].marked(false)),
                queue: self.queue.drop_first(),
                ..self
            }
        } else if self.converged() {
            State { done: true, ..self }
        } else {
            self
        }
    }
}

/// The edge that a link `(u, v, capacity)` describes, without flow.
pub open spec fn edge_of(link: (usize, usize, i32)) -> Edge {
    Edge { u: link.0, v: link.1, f: 0, c: link.2 }
}

/// Node `w` of a network of `n` nodes before anything has flowed: the source
/// stands at height `n`, every other node at zero.
pub open spec fn fresh_node(n: int, w: int) -> Node {
    Node {
        i: w as usize,
        e: 0,
        h: if w == 0 {
            n as i32
        } else {
            0
        },
        in_queue: false,
    }
}

/// The network of `n` nodes and the given links before anything has flowed.
pub open spec fn fresh(n: int, links: Seq<(usize, usize, i32)>) -> State {
    State {
        nodes: Seq::new(n as nat, |w: int| fresh_node(n, w)),
        edges: Seq::new(links.len(), |i: int| edge_of(links[i])),
        queue: Seq::empty(),
        done: false,
    }
}

/// The link joins two different nodes of a network of `n` nodes and has a
/// capacity that is not negative.
pub open spec fn sound(n: int, link: (usize, usize, i32)) -> bool {
    link.0 < n && link.1 < n && link.0 != link.1 && link.2 >= 0
}

/// The links describe a network that can be built: there is a node, and not
/// too many; every link is sound; and what the source can send out fits in
/// 32 bits.
pub open spec fn buildable(n: int, links: Seq<(usize, usize, i32)>) -> bool {
    &&& 1 <= n <= MAX_NODES
    &&& links.len() <= usize::MAX
    &&& forall|i: int| 0 <= i < links.len() ==> sound(n, #[trigger] links[i])
    &&& capacity_at(fresh(n, links).edges, 0) <= i32::MAX
}

/// `value` is what a maximum flow brings from the first to the last of `n`
/// nodes over the given links.
pub open spec fn max_flow_is(n: int, links: Seq<(usize, usize, i32)>, value: int) -> bool {
    exists|edges: Seq<Edge>| #[trigger]
        same_network(edges, fresh(n, links).edges) && is_max_flow(edges, n) && flow_value(
            edges,
            n,
        ) == value
}

/// The list of the edges around a node holds indices of edges that touch it,
/// in rising order, and misses none.
pub proof fn lemma_incident(edges: Seq<Edge>, w: int)
    requires
        edges.len() <= usize::MAX,
    ensures
        forall|k: int|
            0 <= k < incident(edges, w).len() ==> (#[trigger] incident(edges, w)[k]) < edges.len()
                && edges[incident(edges, w)[k] as int].touches(w),
        forall|j: int, k: int|
            0 <= j < k < incident(edges, w).len() ==> incident(edges, w)[j] < incident(edges, w)[k],
        forall|i: int|
            0 <= i < edges.len() && (#[trigger] edges[i]).touches(w) ==> incident(
                edges,
                w,
            ).contains(i as usize),
    decreases edges.len(),
{
    if edges.len() > 0 {
        let rest = edges.drop_last();
        let around = incident(edges, w);
        let before = incident(rest, w);
        lemma_incident(rest, w);
        assert forall|i: int| 0 <= i < edges.len() && (#[trigger] edges[i]).touches(w) implies around.contains(
            i as usize,
        ) by {
            if i < edges.len() - 1 {
                assert(rest[i].touches(w));
                let k = choose|k: int| 0 <= k < before.len() && before[k] == i as usize;
                assert(around[k] == i as usize);
            } else {
                assert(around[around.len() - 1] == i as usize);
            }
        }
    }
}

/// The list of the edges around a node depends on the endpoints alone.
pub proof fn lemma_incident_same(a: Seq<Edge>, b: Seq<Edge>, w: int)
    requires
        same_network(a, b),
    ensures
        incident(a, w) == incident(b, w),
    decreases a.len(),
{
    if a.len() > 0 {
        assert(a.last().u == b.last().u && a.last().v == b.last().v) by {
            assert(a[a.len() - 1].u == b[a.len() - 1].u);
        }
        assert(same_network(a.drop_last(), b.drop_last())) by {
            assert forall|i: int| 0 <= i < a.drop_last().len() implies (#[trigger] a.drop_last()[i]).u
                == b.drop_last()[i].u && a.drop_last()[i].v == b.drop_last()[i].v
                && a.drop_last()[i].c == b.drop_last()[i].c by {
                assert(a[i].u == b[i].u);
            }
        }
        lemma_incident_same(a.drop_last(), b.drop_last(), w);
    }
}

} // verus!
