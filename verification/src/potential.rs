//! Why the method comes to an end: three quantities of which, taken in order,
//! every step lowers one.

use vstd::prelude::*;
use crate::flow::linked;
use crate::model::State;
use crate::records::amount;
use crate::steps::{lemma_push, lemma_relabel, stuck};
use crate::sums::{lemma_sum_differ_at, lemma_sum_differ_at2, lemma_sum_nonneg, seq_sum};

verus! {

/// How far each node stands below the highest level, twice the number of
/// nodes.
pub open spec fn slacks(s: State) -> Seq<int> {
    Seq::new(s.nodes.len(), |w: int| 2 * s.n() - s.nodes[w].h)
}

/// How far the nodes stand below the highest level, added up. Raising a node
/// lowers it.
pub open spec fn slack(s: State) -> int {
    seq_sum(slacks(s))
}

/// In how many of its two directions edge `i` has room left and runs
/// downhill.
pub open spec fn downhill(s: State, i: int) -> int {
    let edge = s.edges[i];
    let hu = s.nodes[edge.u as int].h;
    let hv = s.nodes[edge.v as int].h;
    (if edge.c - edge.f > 0 && hu > hv {
        1int
    } else {
        0int
    }) + (if edge.c + edge.f > 0 && hv > hu {
        1int
    } else {
        0int
    })
}

/// The count of `downhill` for each edge.
pub open spec fn slopes(s: State) -> Seq<int> {
    Seq::new(s.edges.len(), |i: int| downhill(s, i))
}

/// The number of directed edges with room left that run downhill. A push that
/// fills an edge lowers it, and no push raises it.
pub open spec fn slope(s: State) -> int {
    seq_sum(slopes(s))
}

/// The height of node `w` if it is an inner node that holds excess, and zero
/// otherwise.
pub open spec fn load(s: State, w: int) -> int {
    if 0 < w < s.n() - 1 && s.nodes[w].e > 0 {
        s.nodes[w].h as int
    } else {
        0
    }
}

/// The `load` of each node.
pub open spec fn loads(s: State) -> Seq<int> {
    Seq::new(s.nodes.len(), |w: int| load(s, w))
}

/// The heights of the inner nodes that hold excess, added up. A push that
/// does not fill its edge empties a node and lowers it.
pub open spec fn lift(s: State) -> int {
    seq_sum(loads(s))
}

/// State `b` is nearer to the end than state `a`: the first of `slack`,
/// `slope` and `lift` on which they differ is smaller in `b`.
pub open spec fn nearer(a: State, b: State) -> bool {
    ||| slack(b) < slack(a)
    ||| slack(b) == slack(a) && slope(b) < slope(a)
    ||| slack(b) == slack(a) && slope(b) == slope(a) && lift(b) < lift(a)
}

/// State `b` is as far from the end as state `a`.
pub open spec fn level(a: State, b: State) -> bool {
    slack(b) == slack(a) && slope(b) == slope(a) && lift(b) == lift(a)
}

/// None of the three quantities is ever negative.
pub proof fn lemma_potential_nonneg(s: State)
    requires
        s.inv(),
    ensures
        slack(s) >= 0,
        slope(s) >= 0,
        lift(s) >= 0,
{
    assert forall|w: int| 0 <= w < slacks(s).len() implies slacks(s)[w] >= 0 by {
        assert(s.nodes[w].h <= 2 * s.n() - 1);
    }
    lemma_sum_nonneg(slacks(s));
    lemma_sum_nonneg(slopes(s));
    assert forall|w: int| 0 <= w < loads(s).len() implies loads(s)[w] >= 0 by {
        assert(s.nodes[w].h >= 0);
    }
    lemma_sum_nonneg(loads(s));
}

/// States that agree on the edges and on every excess and height are equally
/// far from the end.
pub proof fn lemma_level(a: State, b: State)
    requires
        a.nodes.len() == b.nodes.len(),
        a.edges == b.edges,
        forall|w: int|
            0 <= w < a.nodes.len() ==> (#[trigger] b.nodes[w]).e == a.nodes[w].e && b.nodes[w].h
                == a.nodes[w].h,
        linked(a.edges, a.n()),
    ensures
        level(a, b),
{
    assert forall|w: int| 0 <= w < a.nodes.len() implies slacks(a)[w] == slacks(b)[w] by {
        assert(b.nodes[w].h == a.nodes[w].h);
    }
    assert(slacks(a) =~= slacks(b));
    assert forall|w: int| 0 <= w < a.nodes.len() implies loads(a)[w] == loads(b)[w] by {
        assert(b.nodes[w].h == a.nodes[w].h);
    }
    assert(loads(a) =~= loads(b));
    assert forall|i: int| 0 <= i < a.edges.len() implies slopes(a)[i] == slopes(b)[i] by {
        let edge = a.edges[i];
        assert(edge.u < a.n() && edge.v < a.n());
        assert(b.nodes[edge.u as int].h == a.nodes[edge.u as int].h);
        assert(b.nodes[edge.v as int].h == a.nodes[edge.v as int].h);
    }
    assert(slopes(a) =~= slopes(b));
}

/// A push that moves something brings the state nearer to the end: either it
/// fills its edge, which then no longer runs downhill with room left, or it
/// empties the node, whose height then no longer counts.
pub proof fn lemma_push_nearer(s: State, u: int, i: int)
    requires
        s.inv(),
        0 < u < s.n() - 1,
        0 <= i < s.edges.len(),
        s.edges[i].touches(u),
        amount(s.nodes[u], s.nodes[s.edges[i].peer(u)], s.edges[i]) > 0,
    ensures
        nearer(s, s.push(u, i)),
{
    let n = s.n();
    let p = s.push(u, i);
    let edge = s.edges[i];
    let v = edge.peer(u);
    let d = amount(s.nodes[u], s.nodes[v], edge);
    lemma_push(s, u, i);
    assert(edge.u < n && edge.v < n && edge.u != edge.v);
    assert(s.nodes[u].i == u);
    assert(s.nodes[u].h == p.nodes[u].h);
    assert(s.nodes[v].h == p.nodes[v].h);
    assert forall|w: int| 0 <= w < n implies slacks(s)[w] == slacks(p)[w] by {
        assert(s.nodes[w].h == p.nodes[w].h);
    }
    assert(slacks(s) =~= slacks(p));
    assert forall|j: int| 0 <= j < s.edges.len() && j != i implies slopes(s)[j] == slopes(p)[j] by {
        let other = s.edges[j];
        assert(other.u < n && other.v < n);
        assert(p.edges[j] == other);
        assert(s.nodes[other.u as int].h == p.nodes[other.u as int].h);
        assert(s.nodes[other.v as int].h == p.nodes[other.v as int].h);
    }
    lemma_sum_differ_at(slopes(s), slopes(p), i);
    assert(s.arc_ok(i));
    assert(p.edges[i].u == edge.u && p.edges[i].v == edge.v && p.edges[i].c == edge.c);
    assert(downhill(p, i) <= downhill(s, i));
    if downhill(p, i) == downhill(s, i) {
        assert(p.nodes[u].e == 0);
        assert forall|w: int| 0 <= w < n && w != u && w != v implies loads(s)[w] == loads(p)[w] by {
            assert(p.nodes[w] == s.nodes[w]);
        }
        lemma_sum_differ_at2(loads(s), loads(p), u, v);
        assert(s.nodes[v].h >= 0);
    }
}

/// Raising a node brings the state nearer to the end.
pub proof fn lemma_relabel_nearer(s: State, u: int)
    requires
        s.inv(),
        0 < u < s.n() - 1,
        s.nodes[u].e > 0,
        stuck(s, u),
    ensures
        nearer(s, s.relabel(u)),
{
    let r = s.relabel(u);
    lemma_relabel(s, u);
    assert forall|w: int| 0 <= w < s.n() && w != u implies slacks(s)[w] == slacks(r)[w] by {
        assert(r.nodes[w] == s.nodes[w]);
    }
    lemma_sum_differ_at(slacks(s), slacks(r), u);
}

} // verus!
