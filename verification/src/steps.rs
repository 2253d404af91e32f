//! Each single step keeps what holds in every reachable state.

use vstd::prelude::*;
use crate::cuts::{lemma_excess_bounded, lemma_height_capped};
use crate::flow::{
    capacities_at, capacity_at, capacity_respected, lemma_net_inflow_update, linked, net_inflow,
    same_network,
};
use crate::model::State;
use crate::queue::may_enter;
use crate::records::{amount, Edge};

verus! {

/// The capacity around a node depends on the edges' fixed data alone.
pub proof fn lemma_capacity_same(a: Seq<Edge>, b: Seq<Edge>, w: int)
    requires
        same_network(a, b),
    ensures
        capacity_at(a, w) == capacity_at(b, w),
{
    assert forall|i: int| 0 <= i < a.len() implies capacities_at(a, w)[i] == capacities_at(b, w)[i] by {
        assert(a[i].u == b[i].u);
    }
    assert(capacities_at(a, w) =~= capacities_at(b, w));
}

/// Node `u` can push nothing along any of its edges.
pub open spec fn stuck(s: State, u: int) -> bool {
    forall|i: int|
        0 <= i < s.edges.len() && (#[trigger] s.edges[i]).touches(u) ==> amount(
            s.nodes[u],
            s.nodes[s.edges[i].peer(u)],
            s.edges[i],
        ) == 0
}

/// Two states agree on every height.
pub open spec fn same_heights(a: State, b: State) -> bool {
    &&& a.nodes.len() == b.nodes.len()
    &&& forall|w: int| 0 <= w < a.nodes.len() ==> (#[trigger] a.nodes[w]).h == b.nodes[w].h
}

/// Two states agree on every queue mark.
pub open spec fn same_marks(a: State, b: State) -> bool {
    &&& a.nodes.len() == b.nodes.len()
    &&& a.queue == b.queue
    &&& forall|w: int|
        0 <= w < a.nodes.len() ==> (#[trigger] a.nodes[w]).in_queue == b.nodes[w].in_queue
}

/// A push by an inner node keeps the invariant. It moves exactly the amount
/// from `u` to the node at the other end of the edge, without overflow, and
/// touches no height and no queue mark.
pub proof fn lemma_push(s: State, u: int, i: int)
    requires
        s.inv(),
        0 < u < s.n() - 1,
        0 <= i < s.edges.len(),
        s.edges[i].touches(u),
    ensures
        s.push(u, i).inv(),
        same_network(s.edges, s.push(u, i).edges),
        same_heights(s, s.push(u, i)),
        same_marks(s, s.push(u, i)),
        s.push(u, i).done == s.done,
        0 <= s.edges[i].peer(u) < s.n(),
        s.edges[i].peer(u) != u,
        0 <= amount(s.nodes[u], s.nodes[s.edges[i].peer(u)], s.edges[i]) <= s.nodes[u].e,
        s.push(u, i).nodes[u].e == s.nodes[u].e - amount(
            s.nodes[u],
            s.nodes[s.edges[i].peer(u)],
            s.edges[i],
        ),
        s.push(u, i).nodes[s.edges[i].peer(u)].e == s.nodes[s.edges[i].peer(u)].e + amount(
            s.nodes[u],
            s.nodes[s.edges[i].peer(u)],
            s.edges[i],
        ),
        forall|w: int|
            0 <= w < s.n() && w != u && w != s.edges[i].peer(u) ==> s.push(u, i).nodes[w]
                == s.nodes[w],
        forall|j: int| 0 <= j < s.edges.len() && j != i ==> s.push(u, i).edges[j] == s.edges[j],
        s.push(u, i).edges[i].residual(u) == s.edges[i].residual(u) - amount(
            s.nodes[u],
            s.nodes[s.edges[i].peer(u)],
            s.edges[i],
        ),
        s.push(u, i).edges[i].residual(s.edges[i].peer(u)) == s.edges[i].residual(
            s.edges[i].peer(u),
        ) + amount(s.nodes[u], s.nodes[s.edges[i].peer(u)], s.edges[i]),
{
    let n = s.n();
    let edge = s.edges[i];
    let v = edge.peer(u);
    let d = amount(s.nodes[u], s.nodes[v], edge);
    let p = s.push(u, i);
    assert(edge.u < n && edge.v < n && edge.u != edge.v);
    assert(edge.bounded());
    assert(s.nodes[u].i == u);
    assert(s.nodes[v].i == v);
    assert(s.nodes[u].e >= 0);
    let moved = edge.carrying(u, d);
    assert(moved.bounded());
    assert(moved.u == edge.u && moved.v == edge.v && moved.c == edge.c);
    assert(same_network(s.edges, p.edges));
    assert(linked(p.edges, n)) by {
        assert forall|j: int| 0 <= j < p.edges.len() implies (#[trigger] p.edges[j]).u < n
            && p.edges[j].v < n && p.edges[j].u != p.edges[j].v by {
            assert(s.edges[j].u < n);
        }
    }
    assert(capacity_respected(p.edges)) by {
        assert forall|j: int| 0 <= j < p.edges.len() implies (#[trigger] p.edges[j]).bounded() by {
            assert(s.edges[j].bounded());
        }
    }
    assert forall|w: int| 0 <= w < n implies net_inflow(p.edges, w) == s.nodes[w].e + (if w == u {
        -d
    } else if w == v {
        d
    } else {
        0
    }) by {
        lemma_net_inflow_update(s.edges, i, moved, w);
        assert(s.nodes[w].e == net_inflow(s.edges, w));
    }
    assert forall|x: int| 0 < x < n implies #[trigger] net_inflow(p.edges, x) >= 0 by {
        assert(s.nodes[x].e >= 0);
    }
    lemma_excess_bounded(p.edges, n, v);
    lemma_capacity_same(s.edges, p.edges, 0);
    assert(p.nodes[v].e == s.nodes[v].e + d);
    assert(p.nodes[u].e == s.nodes[u].e - d);
    assert(p.preflow()) by {
        assert forall|w: int| 0 <= w < n implies (#[trigger] p.nodes[w]).e == net_inflow(
            p.edges,
            w,
        ) by {}
        assert forall|w: int| 0 < w < n implies (#[trigger] p.nodes[w]).e >= 0 by {
            assert(net_inflow(p.edges, w) >= 0);
        }
    }
    assert(same_heights(s, p));
    assert(same_marks(s, p));
    assert(p.shaped()) by {
        assert forall|w: int| 0 <= w < n implies (#[trigger] p.nodes[w]).i == w by {
            assert(s.nodes[w].i == w);
        }
        assert forall|j: int| 0 <= j < p.edges.len() implies (#[trigger] p.edges[j]).c >= 0 by {
            assert(s.edges[j].c >= 0);
        }
    }
    assert(p.labelled()) by {
        assert forall|w: int| 0 <= w < n implies (#[trigger] p.nodes[w]).h >= 0 by {
            assert(s.nodes[w].h >= 0);
        }
        assert forall|j: int| 0 <= j < p.edges.len() implies #[trigger] p.arc_ok(j) by {
            assert(s.arc_ok(j));
            assert(s.edges[j].u < n && s.edges[j].v < n);
        }
    }
    assert(p.capped()) by {
        assert forall|w: int| 0 <= w < n implies (#[trigger] p.nodes[w]).h <= 2 * n by {
            assert(s.nodes[w].h <= 2 * n - 1);
        }
    }
    assert(p.queued()) by {
        assert forall|w: int| 0 <= w < n implies ((#[trigger] p.nodes[w]).in_queue
            <==> p.queue.contains(w as usize)) by {
            assert(s.nodes[w].in_queue <==> s.queue.contains(w as usize));
        }
    }
}

/// A node that asks to enter the queue keeps the invariant, whether it is let
/// in or not. Nothing changes but its mark and the queue.
pub proof fn lemma_enqueue(s: State, w: int)
    requires
        s.inv(),
        0 <= w < s.n(),
    ensures
        s.enqueue(w).inv(),
        s.enqueue(w).edges == s.edges,
        s.enqueue(w).done == s.done,
        s.enqueue(w).nodes.len() == s.nodes.len(),
        forall|x: int|
            0 <= x < s.n() ==> (#[trigger] s.enqueue(w).nodes[x]).e == s.nodes[x].e && s.enqueue(
                w,
            ).nodes[x].h == s.nodes[x].h,
        forall|x: int| 0 <= x < s.n() && x != w ==> s.enqueue(w).nodes[x] == s.nodes[x],
        forall|x: int|
            0 <= x < s.n() && (#[trigger] s.nodes[x]).in_queue ==> s.enqueue(w).nodes[x].in_queue,
        0 < w < s.n() - 1 && s.nodes[w].e > 0 ==> s.enqueue(w).nodes[w].in_queue,
        s.enqueue(w).queue.len() >= s.queue.len(),
{
    let n = s.n();
    let q = s.enqueue(w);
    assert(s.nodes[w].i == w);
    if may_enter(s.nodes[w], n) {
        assert(!s.queue.contains(w as usize));
        assert(q.queue == s.queue.push(w as usize));
        assert(q.queue.no_duplicates()) by {
            assert forall|j: int, k: int| 0 <= j < q.queue.len() && 0 <= k < q.queue.len() && j != k implies q.queue[j]
                != q.queue[k] by {
                if j < s.queue.len() && k < s.queue.len() {
                } else if j < s.queue.len() {
                    assert(s.queue.contains(s.queue[j]));
                } else {
                    assert(s.queue.contains(s.queue[k]));
                }
            }
        }
        assert forall|k: int| 0 <= k < q.queue.len() implies 0 < #[trigger] q.queue[k] < n - 1 by {
            if k < s.queue.len() {
                assert(0 < s.queue[k] < n - 1);
            }
        }
        assert forall|x: int| 0 <= x < n implies ((#[trigger] q.nodes[x]).in_queue
            <==> q.queue.contains(x as usize)) by {
            assert(s.nodes[x].in_queue <==> s.queue.contains(x as usize));
            if x == w {
                assert(q.queue[s.queue.len() as int] == w as usize);
            } else if s.queue.contains(x as usize) {
                let k = choose|k: int| 0 <= k < s.queue.len() && s.queue[k] == x as usize;
                assert(q.queue[k] == x as usize);
            } else if q.queue.contains(x as usize) {
                let k = choose|k: int| 0 <= k < q.queue.len() && q.queue[k] == x as usize;
                if k < s.queue.len() {
                    assert(s.queue[k] == x as usize);
                }
            }
        }
        assert(q.shaped()) by {
            assert forall|x: int| 0 <= x < n implies (#[trigger] q.nodes[x]).i == x by {
                assert(s.nodes[x].i == x);
            }
        }
        assert(q.preflow()) by {
            assert forall|x: int| 0 <= x < n implies (#[trigger] q.nodes[x]).e == net_inflow(
                q.edges,
                x,
            ) by {
                assert(s.nodes[x].e == net_inflow(s.edges, x));
            }
            assert forall|x: int| 0 < x < n implies (#[trigger] q.nodes[x]).e >= 0 by {
                assert(s.nodes[x].e >= 0);
            }
        }
        assert(q.labelled()) by {
            assert forall|x: int| 0 <= x < n implies (#[trigger] q.nodes[x]).h >= 0 by {
                assert(s.nodes[x].h >= 0);
            }
            assert forall|j: int| 0 <= j < q.edges.len() implies #[trigger] q.arc_ok(j) by {
                assert(s.arc_ok(j));
                assert(s.edges[j].u < n && s.edges[j].v < n);
            }
        }
        assert(q.capped()) by {
            assert forall|x: int| 0 <= x < n implies (#[trigger] q.nodes[x]).h <= 2 * n by {
                assert(s.nodes[x].h <= 2 * n - 1);
            }
        }
    }
}

/// Raising an inner node that holds excess and can push nothing keeps the
/// invariant. Its height goes up by exactly one; nothing else changes.
pub proof fn lemma_relabel(s: State, u: int)
    requires
        s.inv(),
        0 < u < s.n() - 1,
        s.nodes[u].e > 0,
        stuck(s, u),
    ensures
        s.relabel(u).inv(),
        s.relabel(u).edges == s.edges,
        s.relabel(u).queue == s.queue,
        s.relabel(u).done == s.done,
        s.relabel(u).nodes[u].h == s.nodes[u].h + 1,
        s.relabel(u).nodes[u].e == s.nodes[u].e,
        s.relabel(u).nodes[u].in_queue == s.nodes[u].in_queue,
        forall|x: int| 0 <= x < s.n() && x != u ==> s.relabel(u).nodes[x] == s.nodes[x],
{
    let n = s.n();
    let r = s.relabel(u);
    assert(s.nodes[u].h <= 2 * n - 1);
    assert(s.nodes[u].i == u);
    assert(r.nodes[u].h == s.nodes[u].h + 1);
    assert(r.shaped()) by {
        assert forall|x: int| 0 <= x < n implies (#[trigger] r.nodes[x]).i == x by {
            assert(s.nodes[x].i == x);
        }
    }
    assert(r.preflow()) by {
        assert forall|x: int| 0 <= x < n implies (#[trigger] r.nodes[x]).e == net_inflow(
            r.edges,
            x,
        ) by {
            assert(s.nodes[x].e == net_inflow(s.edges, x));
        }
        assert forall|x: int| 0 < x < n implies (#[trigger] r.nodes[x]).e >= 0 by {
            assert(s.nodes[x].e >= 0);
        }
    }
    assert(r.labelled()) by {
        assert forall|x: int| 0 <= x < n implies (#[trigger] r.nodes[x]).h >= 0 by {
            assert(s.nodes[x].h >= 0);
        }
        assert forall|j: int| 0 <= j < r.edges.len() implies #[trigger] r.arc_ok(j) by {
            let edge = s.edges[j];
            assert(s.arc_ok(j));
            assert(edge.u < n && edge.v < n && edge.u != edge.v);
            if edge.touches(u) {
                assert(amount(s.nodes[u], s.nodes[edge.peer(u)], edge) == 0);
            }
        }
    }
    assert(r.queued()) by {
        assert forall|x: int| 0 <= x < n implies ((#[trigger] r.nodes[x]).in_queue
            <==> r.queue.contains(x as usize)) by {
            assert(s.nodes[x].in_queue <==> s.queue.contains(x as usize));
        }
    }
    lemma_height_capped(r, u);
    assert(r.capped()) by {
        assert forall|x: int| 0 <= x < n implies (#[trigger] r.nodes[x]).h <= 2 * n by {
            assert(s.nodes[x].h <= 2 * n - 1);
        }
    }
}

} // verus!
