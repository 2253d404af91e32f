//! What follows from looking at a set of nodes as a whole: a bound on every
//! excess, a bound on every height, the test for the end of the computation,
//! and the proof that the flow at the end is a maximum flow.

use vstd::prelude::*;
use crate::flow::{
    capacity_at, capacity_respected, conserved, crossing, crossings, flow_into, flow_value,
    gain_of, gains, inflows, is_flow, is_max_flow, lemma_gain_is_flow_into,
    lemma_net_inflow_bounded, linked, net_inflow, same_network,
};
use crate::model::State;
use crate::records::Edge;
use crate::sums::{
    lemma_gap, lemma_gap_but_two, lemma_sum_differ_at, lemma_sum_ge_entry, lemma_sum_le, lemma_sum_update,
    lemma_sum_zero, seq_sum,
};

verus! {

/// The nodes below `n`.
pub open spec fn all_nodes(n: int) -> Set<int> {
    Set::new(|w: int| 0 <= w < n)
}

/// The net inflows of all nodes add up to zero: what enters one node leaves
/// another.
pub proof fn lemma_gains_cancel(edges: Seq<Edge>, n: int)
    requires
        linked(edges, n),
    ensures
        gain_of(edges, n, all_nodes(n)) == 0,
{
    lemma_gain_is_flow_into(edges, n, all_nodes(n));
    assert forall|i: int| 0 <= i < edges.len() implies crossings(edges, all_nodes(n))[i] == 0 by {
        assert(edges[i].u < n);
    }
    lemma_sum_zero(crossings(edges, all_nodes(n)));
}

/// Where no node but the first has given out more than it received, no node
/// holds more than the edges around the first node can carry.
pub proof fn lemma_excess_bounded(edges: Seq<Edge>, n: int, w: int)
    requires
        1 <= n,
        linked(edges, n),
        capacity_respected(edges),
        forall|x: int| 0 < x < n ==> #[trigger] net_inflow(edges, x) >= 0,
        0 <= w < n,
    ensures
        -capacity_at(edges, 0) <= net_inflow(edges, w) <= capacity_at(edges, 0),
{
    lemma_net_inflow_bounded(edges, 0);
    if w != 0 {
        let g = gains(edges, n, all_nodes(n));
        lemma_gains_cancel(edges, n);
        let rest = g.update(0, 0);
        lemma_sum_update(g, 0, 0);
        assert forall|x: int| 0 <= x < rest.len() implies rest[x] >= 0 by {
            if x != 0 {
                assert(net_inflow(edges, x) >= 0);
            }
        }
        lemma_sum_ge_entry(rest, w);
    }
}

/// All that left the source has arrived at the sink exactly when no inner
/// node holds excess.
pub proof fn lemma_balanced_iff_drained(s: State)
    requires
        s.shaped(),
        s.preflow(),
    ensures
        s.converged() <==> forall|w: int| 0 < w < s.n() - 1 ==> (#[trigger] s.nodes[w]).e == 0,
{
    let n = s.n();
    let g = gains(s.edges, n, all_nodes(n));
    lemma_gains_cancel(s.edges, n);
    assert forall|w: int| 0 <= w < n implies g[w] == s.nodes[w].e by {}
    if n == 1 {
        assert(g.drop_last().len() == 0);
        assert(seq_sum(g) == g[0]);
    } else {
        let a = g.update(0, 0);
        let rest = a.update(n - 1, 0);
        lemma_sum_update(g, 0, 0);
        lemma_sum_update(a, n - 1, 0);
        assert(seq_sum(rest) == -s.nodes[0].e - s.nodes[n - 1].e);
        assert forall|x: int| 0 <= x < rest.len() implies rest[x] >= 0 by {
            if x != 0 && x != n - 1 {
                assert(s.nodes[x].e >= 0);
            }
        }
        if s.converged() {
            assert forall|w: int| 0 < w < n - 1 implies (#[trigger] s.nodes[w]).e == 0 by {
                lemma_sum_ge_entry(rest, w);
                assert(rest[w] == s.nodes[w].e);
            }
        }
        if forall|w: int| 0 < w < n - 1 ==> (#[trigger] s.nodes[w]).e == 0 {
            assert forall|x: int| 0 <= x < rest.len() implies rest[x] == 0 by {
                if x != 0 && x != n - 1 {
                    assert(s.nodes[x].e == 0);
                }
            }
            lemma_sum_zero(rest);
        }
    }
}

/// The heights of the nodes, in order.
pub open spec fn heights(s: State) -> Seq<int> {
    Seq::new(s.nodes.len(), |w: int| s.nodes[w].h as int)
}

/// The nodes that stand above level `k`.
pub open spec fn above(s: State, k: int) -> Set<int> {
    Set::new(|w: int| 0 <= w < s.n() && s.nodes[w].h > k)
}

/// The nodes that stand below level `k`.
pub open spec fn below(s: State, k: int) -> Set<int> {
    Set::new(|w: int| 0 <= w < s.n() && s.nodes[w].h < k)
}

/// A node that holds excess stands below twice the number of nodes. Otherwise
/// some level between the source and that node would be empty; the nodes over
/// that level could have received nothing from below, and so could hold no
/// excess.
pub proof fn lemma_height_capped(s: State, v: int)
    requires
        s.shaped(),
        s.preflow(),
        s.labelled(),
        0 < v < s.n(),
        s.nodes[v].e > 0,
    ensures
        s.nodes[v].h <= 2 * s.n() - 1,
{
    let n = s.n();
    if s.nodes[v].h > 2 * n - 1 {
        let hs = heights(s);
        assert(hs[0] == n);
        assert(hs[v] >= 2 * n);
        let k = lemma_gap_but_two(hs, 0, v, n + 1, n - 1);
        let up = above(s, k);
        lemma_gain_is_flow_into(s.edges, n, up);
        let across = crossings(s.edges, up);
        let zero = Seq::new(s.edges.len(), |i: int| 0int);
        assert forall|i: int| 0 <= i < across.len() implies across[i] <= zero[i] by {
            let edge = s.edges[i];
            assert(s.arc_ok(i));
            assert(edge.bounded());
            assert(edge.u < n && edge.v < n);
            assert(hs[edge.u as int] != k);
            assert(hs[edge.v as int] != k);
        }
        lemma_sum_le(across, zero);
        lemma_sum_zero(zero);
        let g = gains(s.edges, n, up);
        assert forall|w: int| 0 <= w < g.len() implies g[w] >= 0 by {
            if up.contains(w) {
                assert(s.nodes[w].e >= 0);
            }
        }
        assert(up.contains(v));
        assert(g[v] == s.nodes[v].e);
        lemma_sum_ge_entry(g, v);
        assert(false);
    }
}

/// Where the inner nodes pass on all they receive, the net inflow of a set
/// that holds the sink and not the source is what arrives at the sink.
proof fn lemma_gain_is_value(edges: Seq<Edge>, n: int, inside: Set<int>)
    requires
        2 <= n,
        conserved(edges, n),
        inside.contains(n - 1),
        !inside.contains(0),
    ensures
        gain_of(edges, n, inside) == flow_value(edges, n),
{
    let g = gains(edges, n, inside);
    let zero = Seq::new(n as nat, |w: int| 0int);
    lemma_sum_zero(zero);
    assert forall|w: int| 0 <= w < n && w != n - 1 implies zero[w] == g[w] by {
        if 0 < w {
            assert(net_inflow(edges, w) == 0);
        }
    }
    lemma_sum_differ_at(zero, g, n - 1);
}

/// A preflow with a valid labelling in which no inner node holds excess is a
/// maximum flow. Some level between the sink and the source is empty; every
/// edge from above it to below it is full, so no flow brings more across.
pub proof fn lemma_drained_is_max_flow(s: State)
    requires
        s.shaped(),
        s.preflow(),
        s.labelled(),
        forall|w: int| 0 < w < s.n() - 1 ==> (#[trigger] s.nodes[w]).e == 0,
    ensures
        is_max_flow(s.edges, s.n()),
        flow_value(s.edges, s.n()) == s.arrived(),
{
    let n = s.n();
    assert(conserved(s.edges, n)) by {
        assert forall|w: int| 0 < w < n - 1 implies #[trigger] net_inflow(s.edges, w) == 0 by {
            assert(s.nodes[w].e == 0);
        }
    }
    assert(flow_value(s.edges, n) == s.nodes[n - 1].e);
    if n == 1 {
        if s.edges.len() > 0 {
            assert(s.edges[0].u < n);
        }
        assert forall|other: Seq<Edge>| #[trigger]
            same_network(other, s.edges) && is_flow(other, n) implies flow_value(other, n)
            <= flow_value(s.edges, n) by {
            assert(inflows(other, 0).len() == 0);
            assert(inflows(s.edges, 0).len() == 0);
        }
    } else {
        let hs = heights(s);
        let k = lemma_gap(hs, 0, n + 1);
        assert(hs[0] == n);
        assert(hs[n - 1] == 0);
        let low = below(s, k);
        assert(low.contains(n - 1));
        assert(!low.contains(0));
        lemma_gain_is_value(s.edges, n, low);
        lemma_gain_is_flow_into(s.edges, n, low);
        assert forall|other: Seq<Edge>| #[trigger]
            same_network(other, s.edges) && is_flow(other, n) implies flow_value(other, n)
            <= flow_value(s.edges, n) by {
            assert(linked(other, n)) by {
                assert forall|i: int| 0 <= i < other.len() implies (#[trigger] other[i]).u < n
                    && other[i].v < n && other[i].u != other[i].v by {
                    assert(s.edges[i].u < n);
                }
            }
            lemma_gain_is_value(other, n, low);
            lemma_gain_is_flow_into(other, n, low);
            let theirs = crossings(other, low);
            let ours = crossings(s.edges, low);
            assert forall|i: int| 0 <= i < theirs.len() implies theirs[i] <= ours[i] by {
                let edge = s.edges[i];
                assert(other[i].u == edge.u && other[i].v == edge.v && other[i].c == edge.c);
                assert(other[i].bounded());
                assert(edge.bounded());
                assert(s.arc_ok(i));
                assert(edge.u < n && edge.v < n);
                assert(hs[edge.u as int] != k);
                assert(hs[edge.v as int] != k);
                assert(theirs[i] == crossing(other[i], low));
                assert(ours[i] == crossing(edge, low));
            }
            lemma_sum_le(theirs, ours);
            assert(flow_into(other, low) <= flow_into(s.edges, low));
        }
    }
}

} // verus!
