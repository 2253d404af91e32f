//! What a worker's round does to a state: leaving the queue with a node,
//! looking at the node's edges one after the other, and discharging it.

use vstd::prelude::*;
use crate::cuts::lemma_balanced_iff_drained;
use crate::flow::{net_inflow, same_network};
use crate::model::{incident, lemma_incident, State};
use crate::potential::{lemma_level, lemma_push_nearer, lemma_relabel_nearer, level, nearer};
use crate::queue::Turn;
use crate::records::amount;
use crate::steps::{lemma_enqueue, lemma_push, lemma_relabel, same_heights, stuck};

verus! {

/// No node stands lower in `b` than in `a`.
pub open spec fn not_lower(a: State, b: State) -> bool {
    &&& a.nodes.len() == b.nodes.len()
    &&& forall|w: int| 0 <= w < a.nodes.len() ==> (#[trigger] b.nodes[w]).h >= a.nodes[w].h
}

/// Looking at one edge keeps the invariant and leaves every node that holds
/// excess, but possibly `u`, in the queue. If anything moves, `u` holds less
/// than before and the state is nearer to the end; if not, nothing changes.
pub proof fn lemma_edge_step(s: State, u: int, i: int)
    requires
        s.inv(),
        0 < u < s.n() - 1,
        0 <= i < s.edges.len(),
        s.edges[i].touches(u),
    ensures
        s.edge_step(u, i).inv(),
        s.settled_but(u) ==> s.edge_step(u, i).settled_but(u),
        same_network(s.edges, s.edge_step(u, i).edges),
        same_heights(s, s.edge_step(u, i)),
        s.edge_step(u, i).done == s.done,
        0 <= s.edge_step(u, i).nodes[u].e <= s.nodes[u].e,
        s.edge_step(u, i).nodes[u].in_queue == s.nodes[u].in_queue,
        s.edge_step(u, i).nodes[u].e < s.nodes[u].e ==> nearer(s, s.edge_step(u, i)),
        s.edge_step(u, i).nodes[u].e == s.nodes[u].e ==> s.edge_step(u, i) == s && amount(
            s.nodes[u],
            s.nodes[s.edges[i].peer(u)],
            s.edges[i],
        ) == 0,
{
    let n = s.n();
    let v = s.edges[i].peer(u);
    let d = amount(s.nodes[u], s.nodes[v], s.edges[i]);
    assert(s.nodes[u].e >= 0);
    if d > 0 {
        let p = s.push(u, i);
        let q = p.enqueue(v);
        lemma_push(s, u, i);
        lemma_push_nearer(s, u, i);
        lemma_enqueue(p, v);
        lemma_level(p, q);
        assert(same_heights(s, q)) by {
            assert forall|w: int| 0 <= w < n implies (#[trigger] s.nodes[w]).h == q.nodes[w].h by {
                assert(s.nodes[w].h == p.nodes[w].h);
                assert(q.nodes[w].h == p.nodes[w].h);
            }
        }
        if s.settled_but(u) {
            assert forall|w: int| 0 < w < n - 1 && w != u && (#[trigger] q.nodes[w]).e > 0 implies q.nodes[w].in_queue by {
                assert(q.nodes[w].e == p.nodes[w].e);
                if w != v {
                    assert(p.nodes[w] == s.nodes[w]);
                    assert(s.nodes[w].in_queue);
                    assert(p.nodes[w].in_queue);
                }
            }
        }
        assert(q.nodes[u] == p.nodes[u]);
        assert(p.nodes[u].in_queue == s.nodes[u].in_queue);
    }
}

/// Looking at the first `k` edges around `u` keeps the invariant and leaves
/// every node that holds excess, but possibly `u`, in the queue. No height
/// changes. Either `u` holds less than before and the state is nearer to the
/// end, or nothing has changed and nothing could be pushed along any of
/// those edges.
pub proof fn lemma_scan(s: State, u: int, k: nat)
    requires
        s.inv(),
        0 < u < s.n() - 1,
        k <= incident(s.edges, u).len(),
    ensures
        s.scan(u, incident(s.edges, u), k).inv(),
        s.settled_but(u) ==> s.scan(u, incident(s.edges, u), k).settled_but(u),
        same_network(s.edges, s.scan(u, incident(s.edges, u), k).edges),
        same_heights(s, s.scan(u, incident(s.edges, u), k)),
        s.scan(u, incident(s.edges, u), k).done == s.done,
        0 <= s.scan(u, incident(s.edges, u), k).nodes[u].e <= s.nodes[u].e,
        s.scan(u, incident(s.edges, u), k).nodes[u].in_queue == s.nodes[u].in_queue,
        s.scan(u, incident(s.edges, u), k).nodes[u].e < s.nodes[u].e ==> nearer(
            s,
            s.scan(u, incident(s.edges, u), k),
        ),
        s.scan(u, incident(s.edges, u), k).nodes[u].e == s.nodes[u].e ==> {
            &&& s.scan(u, incident(s.edges, u), k) == s
            &&& forall|j: int|
                0 <= j < k ==> amount(
                    s.nodes[u],
                    s.nodes[s.edges[incident(s.edges, u)[j] as int].peer(u)],
                    #[trigger] s.edges[incident(s.edges, u)[j] as int],
                ) == 0
        },
    decreases k,
{
    let around = incident(s.edges, u);
    assert(s.nodes[u].e >= 0);
    if k > 0 {
        let p = s.scan(u, around, (k - 1) as nat);
        let i = around[k - 1] as int;
        let q = p.edge_step(u, i);
        lemma_scan(s, u, (k - 1) as nat);
        lemma_incident(s.edges, u);
        assert(0 <= i < s.edges.len() && s.edges[i].touches(u));
        assert(p.edges[i].u == s.edges[i].u && p.edges[i].v == s.edges[i].v) by {
            assert(s.edges[i].u == p.edges[i].u);
        }
        lemma_edge_step(p, u, i);
        assert(same_network(s.edges, q.edges)) by {
            assert forall|j: int| 0 <= j < s.edges.len() implies (#[trigger] s.edges[j]).u
                == q.edges[j].u && s.edges[j].v == q.edges[j].v && s.edges[j].c
                == q.edges[j].c by {
                assert(p.edges[j].u == q.edges[j].u);
            }
        }
        assert(same_heights(s, q)) by {
            assert forall|w: int| 0 <= w < s.n() implies (#[trigger] s.nodes[w]).h
                == q.nodes[w].h by {
                assert(p.nodes[w].h == q.nodes[w].h);
            }
        }
    }
}

/// Once `u` holds no excess, looking at more of its edges changes nothing.
pub proof fn lemma_scan_done(s: State, u: int, around: Seq<usize>, k: nat, len: nat)
    requires
        k <= len,
        s.scan(u, around, k).nodes[u].e <= 0,
    ensures
        s.scan(u, around, len) == s.scan(u, around, k),
    decreases len,
{
    if len > k {
        lemma_scan_done(s, u, around, k, (len - 1) as nat);
    }
}

/// Discharging a node keeps the invariant and leaves every inner node that
/// holds excess in the queue. No node comes to stand lower. If the node is an
/// inner node that holds excess, the state is nearer to the end afterwards;
/// if not, nothing changes.
pub proof fn lemma_discharge(s: State, u: int)
    requires
        s.inv(),
        0 <= u < s.n(),
    ensures
        s.discharge(u).inv(),
        s.settled_but(u) ==> s.discharge(u).settled(),
        same_network(s.edges, s.discharge(u).edges),
        not_lower(s, s.discharge(u)),
        s.discharge(u).done == s.done,
        !s.terminal(u) && s.nodes[u].e > 0 ==> nearer(s, s.discharge(u)),
        s.terminal(u) || s.nodes[u].e <= 0 ==> s.discharge(u) == s,
{
    let n = s.n();
    let around = incident(s.edges, u);
    let r = s.discharge(u);
    if s.terminal(u) {
        if s.settled_but(u) {
            assert forall|w: int| 0 < w < n - 1 && (#[trigger] s.nodes[w]).e > 0 implies s.nodes[w].in_queue by {}
        }
    } else {
        let after = s.scan(u, around, around.len());
        lemma_scan(s, u, around.len());
        assert(not_lower(s, after)) by {
            assert forall|w: int| 0 <= w < n implies (#[trigger] after.nodes[w]).h
                >= s.nodes[w].h by {
                assert(s.nodes[w].h == after.nodes[w].h);
            }
        }
        if after.nodes[u].e <= 0 {
            if s.settled_but(u) {
                assert forall|w: int| 0 < w < n - 1 && (#[trigger] after.nodes[w]).e > 0 implies after.nodes[w].in_queue by {}
            }
        } else if after.nodes[u].e == s.nodes[u].e {
            assert(stuck(s, u)) by {
                lemma_incident(s.edges, u);
                assert forall|i: int| 0 <= i < s.edges.len() && (#[trigger] s.edges[i]).touches(
                    u,
                ) implies amount(s.nodes[u], s.nodes[s.edges[i].peer(u)], s.edges[i]) == 0 by {
                    assert(around.contains(i as usize));
                    let j = choose|j: int| 0 <= j < around.len() && around[j] == i as usize;
                    assert(s.edges[around[j] as int] == s.edges[i]);
                }
            }
            let raised = s.relabel(u);
            lemma_relabel(s, u);
            lemma_relabel_nearer(s, u);
            lemma_enqueue(raised, u);
            lemma_level(raised, r);
            if s.settled_but(u) {
                assert forall|w: int| 0 < w < n - 1 && (#[trigger] r.nodes[w]).e > 0 implies r.nodes[w].in_queue by {
                    if w != u {
                        assert(r.nodes[w] == raised.nodes[w]);
                        assert(raised.nodes[w] == s.nodes[w]);
                    }
                }
            }
            assert(not_lower(s, r)) by {
                assert forall|w: int| 0 <= w < n implies (#[trigger] r.nodes[w]).h
                    >= s.nodes[w].h by {
                    assert(r.nodes[w].h == raised.nodes[w].h);
                    if w != u {
                        assert(raised.nodes[w] == s.nodes[w]);
                    }
                }
            }
        } else {
            lemma_enqueue(after, u);
            lemma_level(after, r);
            if s.settled_but(u) {
                assert forall|w: int| 0 < w < n - 1 && (#[trigger] r.nodes[w]).e > 0 implies r.nodes[w].in_queue by {
                    if w != u {
                        assert(r.nodes[w] == after.nodes[w]);
                    }
                }
            }
            assert(not_lower(s, r)) by {
                assert forall|w: int| 0 <= w < n implies (#[trigger] r.nodes[w]).h
                    >= s.nodes[w].h by {
                    assert(r.nodes[w].h == after.nodes[w].h);
                    assert(s.nodes[w].h == after.nodes[w].h);
                }
            }
        }
    }
}

/// Asking for work keeps the invariant and changes no flow, no excess and no
/// height. With a node waiting, the queue gets shorter by that node, which is
/// an inner node. With nothing waiting and every inner node that holds excess
/// in the queue, the flow is balanced and the end is announced.
pub proof fn lemma_leave(s: State)
    requires
        s.inv(),
    ensures
        s.leave().inv(),
        s.leave().edges == s.edges,
        level(s, s.leave()),
        same_heights(s, s.leave()),
        s.queue.len() > 0 ==> {
            &&& s.turn() == Turn::Work(s.queue[0])
            &&& 0 < s.queue[0] < s.n() - 1
            &&& s.leave().queue.len() == s.queue.len() - 1
            &&& s.leave().done == s.done
            &&& (s.settled() ==> s.leave().settled_but(s.queue[0] as int))
        },
        s.queue.len() == 0 && s.settled() ==> s.turn() == Turn::Done,
        s.turn() == Turn::Done ==> {
            &&& s.leave().done
            &&& s.leave().nodes == s.nodes
            &&& s.leave().queue == s.queue
            &&& forall|w: int| 0 < w < s.n() - 1 ==> (#[trigger] s.nodes[w]).e == 0
        },
        s.turn() == Turn::Wait ==> s.leave() == s,
{
    let n = s.n();
    let l = s.leave();
    lemma_balanced_iff_drained(s);
    if s.queue.len() > 0 {
        let u = s.queue[0] as int;
        assert(0 < s.queue[0] < n - 1);
        assert(s.nodes[u].i == u);
        assert(l.queue.no_duplicates()) by {
            assert forall|j: int, k: int| 0 <= j < l.queue.len() && 0 <= k < l.queue.len() && j != k implies l.queue[j]
                != l.queue[k] by {
                assert(l.queue[j] == s.queue[j + 1]);
                assert(l.queue[k] == s.queue[k + 1]);
            }
        }
        assert forall|k: int| 0 <= k < l.queue.len() implies 0 < #[trigger] l.queue[k] < n - 1 by {
            assert(l.queue[k] == s.queue[k + 1]);
        }
        assert forall|x: int| 0 <= x < n implies ((#[trigger] l.nodes[x]).in_queue
            <==> l.queue.contains(x as usize)) by {
            assert(s.nodes[x].in_queue <==> s.queue.contains(x as usize));
            if x == u {
                if l.queue.contains(x as usize) {
                    let k = choose|k: int| 0 <= k < l.queue.len() && l.queue[k] == x as usize;
                    assert(s.queue[k + 1] == s.queue[0]);
                }
            } else if s.queue.contains(x as usize) {
                let k = choose|k: int| 0 <= k < s.queue.len() && s.queue[k] == x as usize;
                assert(l.queue[k - 1] == x as usize);
            } else if l.queue.contains(x as usize) {
                let k = choose|k: int| 0 <= k < l.queue.len() && l.queue[k] == x as usize;
                assert(s.queue[k + 1] == x as usize);
            }
        }
        assert(l.shaped()) by {
            assert forall|x: int| 0 <= x < n implies (#[trigger] l.nodes[x]).i == x by {
                assert(s.nodes[x].i == x);
            }
        }
        assert(l.preflow()) by {
            assert forall|x: int| 0 <= x < n implies (#[trigger] l.nodes[x]).e == net_inflow(
                l.edges,
                x,
            ) by {
                assert(s.nodes[x].e == net_inflow(s.edges, x));
            }
            assert forall|x: int| 0 < x < n implies (#[trigger] l.nodes[x]).e >= 0 by {
                assert(s.nodes[x].e >= 0);
            }
        }
        assert(same_heights(s, l)) by {
            assert forall|w: int| 0 <= w < n implies (#[trigger] s.nodes[w]).h == l.nodes[w].h by {}
        }
        assert(l.labelled()) by {
            assert forall|x: int| 0 <= x < n implies (#[trigger] l.nodes[x]).h >= 0 by {
                assert(s.nodes[x].h >= 0);
            }
            assert forall|j: int| 0 <= j < l.edges.len() implies #[trigger] l.arc_ok(j) by {
                assert(s.arc_ok(j));
                assert(s.edges[j].u < n && s.edges[j].v < n);
            }
        }
        assert(l.capped()) by {
            assert forall|x: int| 0 <= x < n implies (#[trigger] l.nodes[x]).h <= 2 * n by {
                assert(s.nodes[x].h <= 2 * n - 1);
            }
        }
        assert forall|w: int| 0 <= w < n implies (#[trigger] l.nodes[w]).e == s.nodes[w].e
            && l.nodes[w].h == s.nodes[w].h by {}
        lemma_level(s, l);
        if s.settled() {
            assert(l.settled_but(u)) by {
                assert forall|w: int| 0 < w < n - 1 && w != u && (#[trigger] l.nodes[w]).e > 0 implies l.nodes[w].in_queue by {
                    assert(l.nodes[w] == s.nodes[w]);
                }
            }
        }
    } else {
        assert forall|w: int| 0 <= w < n implies !(#[trigger] s.nodes[w]).in_queue by {
            assert(s.nodes[w].in_queue <==> s.queue.contains(w as usize));
        }
        if s.settled() {
            assert forall|w: int| 0 < w < n - 1 implies (#[trigger] s.nodes[w]).e == 0 by {
                assert(s.nodes[w].e >= 0);
                assert(!s.nodes[w].in_queue);
            }
        }
        assert forall|w: int| 0 <= w < n implies (#[trigger] l.nodes[w]).e == s.nodes[w].e
            && l.nodes[w].h == s.nodes[w].h by {}
        lemma_level(s, l);
        assert(l.labelled()) by {
            assert forall|j: int| 0 <= j < l.edges.len() implies #[trigger] l.arc_ok(j) by {
                assert(s.arc_ok(j));
            }
        }
    }
}

} // verus!
