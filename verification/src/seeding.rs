//! The start of the computation: a network without flow, and the first
//! pushes, by which the source fills every edge around it.

use vstd::prelude::*;
use crate::cuts::lemma_excess_bounded;
use crate::flow::{
    capacity_respected, inflows, lemma_net_inflow_update, linked, net_inflow, same_network,
};
use crate::model::{
    buildable, fresh, incident, lemma_incident, lemma_incident_same, sound, State,
};
use crate::queue::may_enter;
use crate::steps::lemma_capacity_same;
use crate::sums::lemma_sum_zero;

verus! {

impl State {
    /// The state after the source has sent the full capacity along edge `i`.
    pub open spec fn flood(self, i: int) -> State {
        let v = self.edges[i].peer(0);
        let c = self.edges[i].c as int;
        State {
            nodes: self.nodes.update(0, self.nodes[0].gaining(-c)).update(
                v,
                self.nodes[v].gaining(c),
            ),
            edges: self.edges.update(i, self.edges[i].carrying(0, c)),
            ..self
        }
    }

    /// The state after the source has filled edge `i` and the node at its
    /// other end has asked to enter the queue.
    pub open spec fn seed_step(self, i: int) -> State {
        self.flood(i).enqueue(self.edges[i].peer(0))
    }

    /// The state after the source has filled the first `k` edges of `around`.
    pub open spec fn seed(self, around: Seq<usize>, k: nat) -> State
        decreases k,
    {
        if k == 0 {
            self
        } else {
            self.seed(around, (k - 1) as nat).seed_step(around[k - 1] as int)
        }
    }

    /// The state after the source has filled every edge around it.
    pub open spec fn seeded(self) -> State {
        self.seed(incident(self.edges, 0), incident(self.edges, 0).len())
    }
}

/// What holds while the source fills its edges, when the first `k` of them
/// are done: the edges carry a preflow that fills those `k` and leaves every
/// other edge empty, and no node but the source has been raised.
pub open spec fn seeding(s: State, k: int) -> bool {
    let around = incident(s.edges, 0);
    &&& s.shaped()
    &&& s.preflow()
    &&& s.queued()
    &&& s.settled()
    &&& 0 <= k <= around.len()
    &&& s.nodes[0].h == s.n()
    &&& forall|w: int| 0 < w < s.n() ==> (#[trigger] s.nodes[w]).h == 0
    &&& forall|j: int| 0 <= j < k ==> (#[trigger] s.edges[around[j] as int]).residual(0) == 0
    &&& forall|j: int| k <= j < around.len() ==> (#[trigger] s.edges[around[j] as int]).f == 0
    &&& forall|i: int|
        0 <= i < s.edges.len() && !(#[trigger] s.edges[i]).touches(0) ==> s.edges[i].f == 0
}

/// A network that can be built starts in a state from which the source can
/// fill its edges.
pub proof fn lemma_fresh(n: int, links: Seq<(usize, usize, i32)>)
    requires
        buildable(n, links),
    ensures
        seeding(fresh(n, links), 0),
        fresh(n, links).n() == n,
{
    let s = fresh(n, links);
    assert(linked(s.edges, n)) by {
        assert forall|i: int| 0 <= i < s.edges.len() implies (#[trigger] s.edges[i]).u < n
            && s.edges[i].v < n && s.edges[i].u != s.edges[i].v by {
            assert(sound(n, links[i]));
        }
    }
    assert forall|i: int| 0 <= i < s.edges.len() implies (#[trigger] s.edges[i]).c >= 0
        && s.edges[i].f == 0 by {
        assert(sound(n, links[i]));
    }
    assert(capacity_respected(s.edges)) by {
        assert forall|i: int| 0 <= i < s.edges.len() implies (#[trigger] s.edges[i]).bounded() by {
            assert(s.edges[i].c >= 0);
        }
    }
    assert forall|w: int| 0 <= w < n implies (#[trigger] s.nodes[w]).e == net_inflow(s.edges, w) by {
        assert forall|i: int| 0 <= i < s.edges.len() implies inflows(s.edges, w)[i] == 0 by {
            assert(s.edges[i].f == 0);
        }
        lemma_sum_zero(inflows(s.edges, w));
    }
    lemma_incident(s.edges, 0);
    assert(s.queued()) by {
        assert forall|w: int| 0 <= w < n implies ((#[trigger] s.nodes[w]).in_queue
            <==> s.queue.contains(w as usize)) by {}
    }
}

/// Filling the next edge around the source keeps what holds while the source
/// fills its edges. The source gives out the capacity of the edge and the
/// node at the other end receives it, without overflow.
pub proof fn lemma_seed_step(s: State, k: int)
    requires
        seeding(s, k),
        k < incident(s.edges, 0).len(),
    ensures
        seeding(s.seed_step(incident(s.edges, 0)[k] as int), k + 1),
        same_network(s.edges, s.seed_step(incident(s.edges, 0)[k] as int).edges),
        incident(s.seed_step(incident(s.edges, 0)[k] as int).edges, 0) == incident(s.edges, 0),
        s.seed_step(incident(s.edges, 0)[k] as int).n() == s.n(),
        s.seed_step(incident(s.edges, 0)[k] as int).done == s.done,
        0 <= incident(s.edges, 0)[k] < s.edges.len(),
        0 < s.edges[incident(s.edges, 0)[k] as int].peer(0) < s.n(),
        s.edges[incident(s.edges, 0)[k] as int].f == 0,
        s.edges[incident(s.edges, 0)[k] as int].c >= 0,
        s.nodes[0].e - s.edges[incident(s.edges, 0)[k] as int].c >= i32::MIN,
        s.nodes[s.edges[incident(s.edges, 0)[k] as int].peer(0)].e + s.edges[incident(
            s.edges,
            0,
        )[k] as int].c <= i32::MAX,
{
    let n = s.n();
    let around = incident(s.edges, 0);
    lemma_incident(s.edges, 0);
    let i = around[k] as int;
    let edge = s.edges[i];
    assert(edge.touches(0));
    assert(edge.f == 0);
    assert(edge.u < n && edge.v < n && edge.u != edge.v);
    assert(edge.c >= 0);
    let v = edge.peer(0);
    let c = edge.c as int;
    let p = s.flood(i);
    let q = s.seed_step(i);
    let full = edge.carrying(0, c);
    assert(full.bounded());
    assert(full.residual(0) == 0);
    assert(full.u == edge.u && full.v == edge.v && full.c == edge.c);
    assert(same_network(s.edges, p.edges));
    assert(linked(p.edges, n)) by {
        assert forall|j: int| 0 <= j < p.edges.len() implies (#[trigger] p.edges[j]).u < n
            && p.edges[j].v < n && p.edges[j].u != p.edges[j].v by {
            assert(s.edges[j].u < n);
        }
    }
    assert(capacity_respected(p.edges)) by {
        assert forall|j: int| 0 <= j < p.edges.len() implies (#[trigger] p.edges[j]).bounded() by {
            assert(s.edges[j].bounded());
        }
    }
    assert forall|w: int| 0 <= w < n implies net_inflow(p.edges, w) == s.nodes[w].e + (if w == 0 {
        -c
    } else if w == v {
        c
    } else {
        0
    }) by {
        lemma_net_inflow_update(s.edges, i, full, w);
        assert(s.nodes[w].e == net_inflow(s.edges, w));
    }
    assert forall|x: int| 0 < x < n implies #[trigger] net_inflow(p.edges, x) >= 0 by {
        assert(s.nodes[x].e >= 0);
    }
    lemma_excess_bounded(p.edges, n, v);
    lemma_excess_bounded(p.edges, n, 0);
    lemma_capacity_same(s.edges, p.edges, 0);
    lemma_incident_same(s.edges, p.edges, 0);
    assert(p.nodes[0].e == s.nodes[0].e - c);
    assert(p.nodes[v].e == s.nodes[v].e + c);
    assert(p.shaped()) by {
        assert forall|w: int| 0 <= w < n implies (#[trigger] p.nodes[w]).i == w by {
            assert(s.nodes[w].i == w);
        }
        assert forall|j: int| 0 <= j < p.edges.len() implies (#[trigger] p.edges[j]).c >= 0 by {
            assert(s.edges[j].c >= 0);
        }
    }
    assert(p.preflow()) by {
        assert forall|w: int| 0 <= w < n implies (#[trigger] p.nodes[w]).e == net_inflow(
            p.edges,
            w,
        ) by {}
        assert forall|w: int| 0 < w < n implies (#[trigger] p.nodes[w]).e >= 0 by {
            assert(net_inflow(p.edges, w) >= 0);
        }
    }
    assert(p.queued()) by {
        assert forall|w: int| 0 <= w < n implies ((#[trigger] p.nodes[w]).in_queue
            <==> p.queue.contains(w as usize)) by {
            assert(s.nodes[w].in_queue <==> s.queue.contains(w as usize));
        }
    }
    assert(q.edges == p.edges);
    lemma_seed_rest(s, p, q, k);
}

/// The second half of the step: the node at the other end of the filled edge
/// asks to enter the queue.
proof fn lemma_seed_rest(s: State, p: State, q: State, k: int)
    requires
        seeding(s, k),
        k < incident(s.edges, 0).len(),
        p == s.flood(incident(s.edges, 0)[k] as int),
        q == s.seed_step(incident(s.edges, 0)[k] as int),
        p.shaped(),
        p.preflow(),
        p.queued(),
        same_network(s.edges, p.edges),
        incident(p.edges, 0) == incident(s.edges, 0),
        s.edges[incident(s.edges, 0)[k] as int].f == 0,
        p.edges[incident(s.edges, 0)[k] as int].residual(0) == 0,
        0 < s.edges[incident(s.edges, 0)[k] as int].peer(0) < s.n(),
    ensures
        seeding(q, k + 1),
        q.edges == p.edges,
        q.n() == s.n(),
        q.done == s.done,
{
    let n = s.n();
    let around = incident(s.edges, 0);
    lemma_incident(s.edges, 0);
    let i = around[k] as int;
    let v = s.edges[i].peer(0);
    assert(q == p.enqueue(v));
    assert(s.nodes[0].i == 0);
    assert(s.nodes[v].i == v);
    // The labelling is not valid while the source fills its edges, so the
    // queue step is followed by hand rather than through the invariant.
    if may_enter(p.nodes[v], n) {
        assert(!p.queue.contains(v as usize));
        assert(q.queue == p.queue.push(v as usize));
        assert(q.queue.no_duplicates()) by {
            assert forall|a: int, b: int| 0 <= a < q.queue.len() && 0 <= b < q.queue.len() && a != b implies q.queue[a]
                != q.queue[b] by {
                if a < p.queue.len() && b < p.queue.len() {
                } else if a < p.queue.len() {
                    assert(p.queue.contains(p.queue[a]));
                } else {
                    assert(p.queue.contains(p.queue[b]));
                }
            }
        }
        assert forall|j: int| 0 <= j < q.queue.len() implies 0 < #[trigger] q.queue[j] < n - 1 by {
            if j < p.queue.len() {
                assert(0 < p.queue[j] < n - 1);
            }
        }
        assert forall|x: int| 0 <= x < n implies ((#[trigger] q.nodes[x]).in_queue
            <==> q.queue.contains(x as usize)) by {
            assert(p.nodes[x].in_queue <==> p.queue.contains(x as usize));
            if x == v {
                assert(q.queue[p.queue.len() as int] == v as usize);
            } else if p.queue.contains(x as usize) {
                let j = choose|j: int| 0 <= j < p.queue.len() && p.queue[j] == x as usize;
                assert(q.queue[j] == x as usize);
            } else if q.queue.contains(x as usize) {
                let j = choose|j: int| 0 <= j < q.queue.len() && q.queue[j] == x as usize;
                if j < p.queue.len() {
                    assert(p.queue[j] == x as usize);
                }
            }
        }
    }
    assert forall|x: int| 0 <= x < n implies (#[trigger] q.nodes[x]).e == p.nodes[x].e
        && q.nodes[x].h == p.nodes[x].h && q.nodes[x].i == p.nodes[x].i by {}
    assert(q.shaped()) by {
        assert forall|x: int| 0 <= x < n implies (#[trigger] q.nodes[x]).i == x by {
            assert(p.nodes[x].i == x);
        }
    }
    assert(q.preflow()) by {
        assert forall|x: int| 0 <= x < n implies (#[trigger] q.nodes[x]).e == net_inflow(
            q.edges,
            x,
        ) by {
            assert(p.nodes[x].e == net_inflow(p.edges, x));
        }
        assert forall|x: int| 0 < x < n implies (#[trigger] q.nodes[x]).e >= 0 by {
            assert(p.nodes[x].e >= 0);
        }
    }
    assert(q.settled()) by {
        assert forall|w: int| 0 < w < n - 1 && (#[trigger] q.nodes[w]).e > 0 implies q.nodes[w].in_queue by {
            if w != v {
                assert(q.nodes[w] == p.nodes[w]);
                assert(p.nodes[w] == s.nodes[w]);
                assert(s.nodes[w].in_queue);
            }
        }
    }
    assert forall|w: int| 0 < w < n implies (#[trigger] q.nodes[w]).h == 0 by {
        assert(s.nodes[w].h == 0);
    }
    assert forall|j: int| 0 <= j < k + 1 implies (#[trigger] q.edges[around[j] as int]).residual(0)
        == 0 by {
        if j < k {
            assert(around[j] < around[k]);
            assert(s.edges[around[j] as int].residual(0) == 0);
        }
    }
    assert forall|j: int| k + 1 <= j < around.len() implies (#[trigger] q.edges[around[j] as int]).f
        == 0 by {
        assert(around[k] < around[j]);
        assert(s.edges[around[j] as int].f == 0);
    }
    assert forall|x: int| 0 <= x < q.edges.len() && !(#[trigger] q.edges[x]).touches(0) implies q.edges[x].f
        == 0 by {
        assert(s.edges[x].u == q.edges[x].u);
        assert(!s.edges[x].touches(0));
    }
}

/// Filling the first `k` edges around the source, one after the other, keeps
/// what holds while the source fills its edges.
pub proof fn lemma_seed(s: State, k: nat)
    requires
        seeding(s, 0),
        k <= incident(s.edges, 0).len(),
    ensures
        seeding(s.seed(incident(s.edges, 0), k), k as int),
        same_network(s.edges, s.seed(incident(s.edges, 0), k).edges),
        incident(s.seed(incident(s.edges, 0), k).edges, 0) == incident(s.edges, 0),
        s.seed(incident(s.edges, 0), k).n() == s.n(),
        s.seed(incident(s.edges, 0), k).done == s.done,
    decreases k,
{
    if k > 0 {
        let around = incident(s.edges, 0);
        let p = s.seed(around, (k - 1) as nat);
        lemma_seed(s, (k - 1) as nat);
        lemma_seed_step(p, k - 1);
        let q = p.seed_step(around[k - 1] as int);
        assert(same_network(s.edges, q.edges)) by {
            assert forall|j: int| 0 <= j < s.edges.len() implies (#[trigger] s.edges[j]).u
                == q.edges[j].u && s.edges[j].v == q.edges[j].v && s.edges[j].c
                == q.edges[j].c by {
                assert(p.edges[j].u == q.edges[j].u);
            }
        }
    }
}

/// Once the source has filled every edge around it, the invariant holds and
/// every inner node that holds excess is in the queue.
pub proof fn lemma_seeded(s: State)
    requires
        seeding(s, incident(s.edges, 0).len() as int),
    ensures
        s.inv(),
        s.settled(),
{
    let n = s.n();
    let around = incident(s.edges, 0);
    lemma_incident(s.edges, 0);
    assert(s.labelled()) by {
        assert forall|w: int| 0 <= w < n implies (#[trigger] s.nodes[w]).h >= 0 by {
            if w > 0 {
                assert(s.nodes[w].h == 0);
            }
        }
        assert forall|i: int| 0 <= i < s.edges.len() implies #[trigger] s.arc_ok(i) by {
            let edge = s.edges[i];
            assert(edge.u < n && edge.v < n && edge.u != edge.v);
            if edge.touches(0) {
                assert(around.contains(i as usize));
                let j = choose|j: int| 0 <= j < around.len() && around[j] == i as usize;
                assert(s.edges[around[j] as int].residual(0) == 0);
                if edge.u == 0 {
                    assert(s.nodes[edge.v as int].h == 0);
                } else {
                    assert(s.nodes[edge.u as int].h == 0);
                }
            } else {
                assert(s.nodes[edge.u as int].h == 0);
                assert(s.nodes[edge.v as int].h == 0);
            }
        }
        if n > 1 {
            assert(s.nodes[n - 1].h == 0);
        }
    }
    assert(s.capped()) by {
        assert forall|w: int| 0 <= w < n implies (#[trigger] s.nodes[w]).h <= 2 * n - 1 by {
            if w > 0 {
                assert(s.nodes[w].h == 0);
            }
        }
    }
}

} // verus!
