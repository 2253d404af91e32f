//! What holds of every run of the method, stated over the states it passes
//! through.

use vstd::prelude::*;
use crate::cuts::{lemma_balanced_iff_drained, lemma_drained_is_max_flow};
use crate::flow::{
    capacity_respected, conserved, flow_value, is_flow, is_max_flow, net_inflow, same_network,
};
use crate::model::{fresh, max_flow_is, State};
use crate::queue::Turn;
use crate::records::Edge;
use crate::rounds::{lemma_discharge, lemma_leave, not_lower};

verus! {

/// A network has one maximum flow value: two values that each belong to a
/// maximum flow over the same links are equal. So whatever method finds a
/// maximum flow finds the value that this one finds.
pub proof fn lemma_max_flow_value_unique(
    n: int,
    links: Seq<(usize, usize, i32)>,
    a: int,
    b: int,
)
    requires
        max_flow_is(n, links, a),
        max_flow_is(n, links, b),
    ensures
        a == b,
{
    let first = fresh(n, links).edges;
    let x = choose|edges: Seq<Edge>| #[trigger]
        same_network(edges, first) && is_max_flow(edges, n) && flow_value(edges, n) == a;
    let y = choose|edges: Seq<Edge>| #[trigger]
        same_network(edges, first) && is_max_flow(edges, n) && flow_value(edges, n) == b;
    assert(same_network(x, y) && same_network(y, x)) by {
        assert forall|i: int| 0 <= i < x.len() implies (#[trigger] x[i]).u == y[i].u && x[i].v
            == y[i].v && x[i].c == y[i].c by {
            assert(y[i].u == first[i].u);
        }
        assert forall|i: int| 0 <= i < y.len() implies (#[trigger] y[i]).u == x[i].u && y[i].v
            == x[i].v && y[i].c == x[i].c by {
            assert(x[i].u == first[i].u);
        }
    }
    assert(is_flow(x, n) && is_flow(y, n));
}

/// When all that left the source has arrived at the sink, the edges carry a
/// maximum flow, and its value is what has arrived.
pub proof fn lemma_converged_is_max_flow(s: State)
    requires
        s.inv(),
        s.converged(),
    ensures
        is_max_flow(s.edges, s.n()),
        flow_value(s.edges, s.n()) == s.arrived(),
{
    lemma_balanced_iff_drained(s);
    lemma_drained_is_max_flow(s);
}

/// When all that left the source has arrived at the sink, no inner node
/// holds excess; in particular none that is not in the queue.
pub proof fn lemma_converged_is_drained(s: State)
    requires
        s.inv(),
        s.converged(),
    ensures
        forall|w: int|
            0 < w < s.n() - 1 && !(#[trigger] s.nodes[w]).in_queue ==> s.nodes[w].e == 0,
        forall|w: int| 0 < w < s.n() - 1 ==> (#[trigger] s.nodes[w]).e == 0,
{
    lemma_balanced_iff_drained(s);
}

/// When all that left the source has arrived at the sink, every inner node
/// passes on exactly what it receives.
pub proof fn lemma_converged_is_conserved(s: State)
    requires
        s.inv(),
        s.converged(),
    ensures
        conserved(s.edges, s.n()),
{
    lemma_balanced_iff_drained(s);
    assert forall|w: int| 0 < w < s.n() - 1 implies #[trigger] net_inflow(s.edges, w) == 0 by {
        assert(s.nodes[w].e == 0);
    }
}

/// In every state that the method reaches, and so after every step, no edge
/// carries more than its capacity in either direction.
pub proof fn lemma_capacity_kept(s: State, u: int)
    requires
        s.inv(),
        0 <= u < s.n(),
    ensures
        capacity_respected(s.edges),
        capacity_respected(s.leave().edges),
        capacity_respected(s.discharge(u).edges),
        forall|i: int|
            0 <= i < s.edges.len() ==> -(#[trigger] s.edges[i]).c <= s.edges[i].f <= s.edges[i].c,
{
    lemma_leave(s);
    lemma_discharge(s, u);
    assert forall|i: int| 0 <= i < s.edges.len() implies -(#[trigger] s.edges[i]).c
        <= s.edges[i].f <= s.edges[i].c by {
        assert(s.edges[i].bounded());
    }
}

/// No step lowers a node: neither asking for work nor discharging a node
/// leaves any node lower than it stood.
pub proof fn lemma_heights_never_fall(s: State, u: int)
    requires
        s.inv(),
        0 <= u < s.n(),
    ensures
        not_lower(s, s.leave()),
        not_lower(s, s.discharge(u)),
{
    lemma_leave(s);
    lemma_discharge(s, u);
    assert forall|w: int| 0 <= w < s.nodes.len() implies (#[trigger] s.leave().nodes[w]).h
        >= s.nodes[w].h by {
        assert(s.nodes[w].h == s.leave().nodes[w].h);
    }
}

/// Once a worker has been told to stop, asking again gives the same answer
/// and changes nothing: neither the announcement nor what has arrived at the
/// sink.
pub proof fn lemma_stop_is_final(s: State)
    requires
        s.inv(),
        s.turn() == Turn::Done,
    ensures
        s.leave().turn() == Turn::Done,
        s.leave().leave() == s.leave(),
        s.leave().arrived() == s.arrived(),
        s.leave().done,
{
    lemma_leave(s);
}

} // verus!
