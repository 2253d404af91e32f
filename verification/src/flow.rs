//! Flows on a list of edges: what enters a node, what enters a set of nodes,
//! and what it means for a flow to be a maximum flow.

use vstd::prelude::*;
use crate::records::Edge;
use crate::sums::{
    lemma_sum_add, lemma_sum_differ_at, lemma_sum_differ_at2, lemma_sum_le, lemma_sum_zero, seq_sum,
};

verus! {

/// Every edge joins two different nodes below `n`.
pub open spec fn linked(edges: Seq<Edge>, n: int) -> bool {
    forall|i: int|
        0 <= i < edges.len() ==> (#[trigger] edges[i]).u < n && edges[i].v < n && edges[i].u
            != edges[i].v
}

/// No edge carries more than its capacity, in either direction.
pub open spec fn capacity_respected(edges: Seq<Edge>) -> bool {
    forall|i: int| 0 <= i < edges.len() ==> (#[trigger] edges[i]).bounded()
}

/// What `edge` brings into node `w`.
pub open spec fn inflow(edge: Edge, w: int) -> int {
    if edge.v == w {
        edge.f as int
    } else if edge.u == w {
        -edge.f
    } else {
        0
    }
}

/// What each edge brings into node `w`.
pub open spec fn inflows(edges: Seq<Edge>, w: int) -> Seq<int> {
    Seq::new(edges.len(), |i: int| inflow(edges[i], w))
}

/// What enters node `w` minus what leaves it.
pub open spec fn net_inflow(edges: Seq<Edge>, w: int) -> int {
    seq_sum(inflows(edges, w))
}

/// What `edge` brings into the set `inside` from the nodes outside it.
pub open spec fn crossing(edge: Edge, inside: Set<int>) -> int {
    (if inside.contains(edge.v as int) {
        edge.f as int
    } else {
        0
    }) - (if inside.contains(edge.u as int) {
        edge.f as int
    } else {
        0
    })
}

/// What each edge brings into the set `inside`.
pub open spec fn crossings(edges: Seq<Edge>, inside: Set<int>) -> Seq<int> {
    Seq::new(edges.len(), |i: int| crossing(edges[i], inside))
}

/// What enters the set `inside` minus what leaves it.
pub open spec fn flow_into(edges: Seq<Edge>, inside: Set<int>) -> int {
    seq_sum(crossings(edges, inside))
}

/// The net inflow of each node below `n` that lies in `inside`, and zero for
/// the others.
pub open spec fn gains(edges: Seq<Edge>, n: int, inside: Set<int>) -> Seq<int> {
    Seq::new(
        n as nat,
        |w: int|
            if inside.contains(w) {
                net_inflow(edges, w)
            } else {
                0
            },
    )
}

/// The net inflows of the nodes of `inside`, added up.
pub open spec fn gain_of(edges: Seq<Edge>, n: int, inside: Set<int>) -> int {
    seq_sum(gains(edges, n, inside))
}

/// The capacity of each edge that touches `w`, and zero for the others.
pub open spec fn capacities_at(edges: Seq<Edge>, w: int) -> Seq<int> {
    Seq::new(
        edges.len(),
        |i: int|
            if edges[i].touches(w) {
                edges[i].c as int
            } else {
                0
            },
    )
}

/// The capacities of the edges that touch `w`, added up.
pub open spec fn capacity_at(edges: Seq<Edge>, w: int) -> int {
    seq_sum(capacities_at(edges, w))
}

/// `a` and `b` are flows on one network: the same edges with the same
/// capacities.
pub open spec fn same_network(a: Seq<Edge>, b: Seq<Edge>) -> bool {
    &&& a.len() == b.len()
    &&& forall|i: int|
        0 <= i < a.len() ==> (#[trigger] a[i]).u == b[i].u && a[i].v == b[i].v && a[i].c == b[i].c
}

/// Every node but the first and the last passes on all that it receives.
pub open spec fn conserved(edges: Seq<Edge>, n: int) -> bool {
    forall|w: int| 0 < w < n - 1 ==> #[trigger] net_inflow(edges, w) == 0
}

/// The edges carry a flow from node `0` to node `n - 1`.
pub open spec fn is_flow(edges: Seq<Edge>, n: int) -> bool {
    capacity_respected(edges) && conserved(edges, n)
}

/// What arrives at the last node.
pub open spec fn flow_value(edges: Seq<Edge>, n: int) -> int {
    net_inflow(edges, n - 1)
}

/// The edges carry a flow, and no flow on the same network brings more to the
/// last node.
pub open spec fn is_max_flow(edges: Seq<Edge>, n: int) -> bool {
    &&& is_flow(edges, n)
    &&& forall|other: Seq<Edge>| #[trigger]
        same_network(other, edges) && is_flow(other, n) ==> flow_value(other, n) <= flow_value(
            edges,
            n,
        )
}

/// The net inflow of a node is that over all edges but the last, plus what the
/// last edge brings.
pub proof fn lemma_net_inflow_last(edges: Seq<Edge>, w: int)
    requires
        edges.len() > 0,
    ensures
        net_inflow(edges, w) == net_inflow(edges.drop_last(), w) + inflow(edges.last(), w),
{
    assert(inflows(edges, w).drop_last() =~= inflows(edges.drop_last(), w));
}

/// Changing one edge changes the net inflow of a node by the change in what
/// that edge brings.
pub proof fn lemma_net_inflow_update(edges: Seq<Edge>, i: int, edge: Edge, w: int)
    requires
        0 <= i < edges.len(),
    ensures
        net_inflow(edges.update(i, edge), w) == net_inflow(edges, w) - inflow(edges[i], w)
            + inflow(edge, w),
{
    lemma_sum_differ_at(inflows(edges, w), inflows(edges.update(i, edge), w), i);
}

/// What enters a node is bounded by the capacity of the edges around it.
pub proof fn lemma_net_inflow_bounded(edges: Seq<Edge>, w: int)
    requires
        capacity_respected(edges),
    ensures
        -capacity_at(edges, w) <= net_inflow(edges, w) <= capacity_at(edges, w),
{
    let a = inflows(edges, w);
    let c = capacities_at(edges, w);
    let neg = Seq::new(edges.len(), |i: int| -c[i]);
    let zero = Seq::new(edges.len(), |i: int| 0int);
    assert forall|i: int| 0 <= i < edges.len() implies neg[i] <= a[i] && a[i] <= c[i] by {
        assert(edges[i].bounded());
    }
    lemma_sum_le(a, c);
    lemma_sum_le(neg, a);
    lemma_sum_add(neg, c, zero);
    lemma_sum_zero(zero);
}

/// What one edge brings into the nodes of a set, node by node, adds up to what
/// it brings across the boundary of the set.
proof fn lemma_crossing_by_node(edge: Edge, n: int, inside: Set<int>)
    requires
        edge.u < n,
        edge.v < n,
        edge.u != edge.v,
    ensures
        seq_sum(
            Seq::new(
                n as nat,
                |w: int|
                    if inside.contains(w) {
                        inflow(edge, w)
                    } else {
                        0
                    },
            ),
        ) == crossing(edge, inside),
{
    let s = Seq::new(
        n as nat,
        |w: int|
            if inside.contains(w) {
                inflow(edge, w)
            } else {
                0
            },
    );
    let zero = Seq::new(n as nat, |w: int| 0int);
    lemma_sum_zero(zero);
    lemma_sum_differ_at2(zero, s, edge.u as int, edge.v as int);
}

/// The net inflows of the nodes of a set add up to what crosses into the set:
/// what flows between two nodes of the set cancels.
pub proof fn lemma_gain_is_flow_into(edges: Seq<Edge>, n: int, inside: Set<int>)
    requires
        linked(edges, n),
    ensures
        gain_of(edges, n, inside) == flow_into(edges, inside),
    decreases edges.len(),
{
    if edges.len() == 0 {
        assert forall|w: int| 0 <= w < n implies gains(edges, n, inside)[w] == 0 by {
            assert(inflows(edges, w).len() == 0);
        }
        lemma_sum_zero(gains(edges, n, inside));
        assert(crossings(edges, inside).len() == 0);
    } else {
        let rest = edges.drop_last();
        let last = edges.last();
        assert(linked(rest, n)) by {
            assert forall|i: int| 0 <= i < rest.len() implies (#[trigger] rest[i]).u < n && rest[i].v
                < n && rest[i].u != rest[i].v by {
                assert(rest[i] == edges[i]);
            }
        }
        lemma_gain_is_flow_into(rest, n, inside);
        let by_node = Seq::new(
            n as nat,
            |w: int|
                if inside.contains(w) {
                    inflow(last, w)
                } else {
                    0
                },
        );
        assert forall|w: int| 0 <= w < n implies gains(edges, n, inside)[w] == gains(
            rest,
            n,
            inside,
        )[w] + by_node[w] by {
            lemma_net_inflow_last(edges, w);
        }
        lemma_sum_add(gains(rest, n, inside), by_node, gains(edges, n, inside));
        lemma_crossing_by_node(last, n, inside);
        assert(crossings(edges, inside).drop_last() =~= crossings(rest, inside));
    }
}

} // verus!
