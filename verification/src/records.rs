//! Node and edge records, and the two local operations of the method:
//! pushing excess along one edge and raising one node.

use vstd::prelude::*;

verus! {

/// A vertex of the network.
#[derive(Clone, Copy, Debug, PartialEq, Eq, Structural)]
pub struct Node {
    /// Index of the node in the arena.
    pub i: usize,
    /// Excess: what has flowed in minus what has flowed out.
    pub e: i32,
    /// Height label.
    pub h: i32,
    /// Whether the node is waiting in the queue of active nodes.
    pub in_queue: bool,
}

/// A link between `u` and `v` that carries up to `c` units either way.
/// `f` is the net flow from `u` to `v`; a negative value flows from `v` to `u`.
#[derive(Clone, Copy, Debug, PartialEq, Eq, Structural)]
pub struct Edge {
    pub u: usize,
    pub v: usize,
    pub f: i32,
    pub c: i32,
}

impl Node {
    /// A node at height zero with no excess.
    pub fn new(ii: usize) -> (node: Node)
        ensures
            node == (Node { i: ii, e: 0, h: 0, in_queue: false }),
    {
        Node { i: ii, e: 0, h: 0, in_queue: false }
    }

    /// A node at height `hh` with no excess.
    pub fn new2(ii: usize, hh: i32) -> (node: Node)
        ensures
            node == (Node { i: ii, e: 0, h: hh, in_queue: false }),
    {
        Node { i: ii, e: 0, h: hh, in_queue: false }
    }

    /// The node after its excess has changed by `d`.
    pub open spec fn gaining(self, d: int) -> Node {
        Node { e: (self.e + d) as i32, ..self }
    }

    /// The node one level higher.
    pub open spec fn raised(self) -> Node {
        Node { h: (self.h + 1) as i32, ..self }
    }

    /// The node with its queue mark set to `mark`.
    pub open spec fn marked(self, mark: bool) -> Node {
        Node { in_queue: mark, ..self }
    }
}

impl Edge {
    /// An edge between `uu` and `vv` of capacity `cc` that carries no flow.
    pub fn new(uu: usize, vv: usize, cc: i32) -> (edge: Edge)
        ensures
            edge == (Edge { u: uu, v: vv, f: 0, c: cc }),
    {
        Edge { u: uu, v: vv, f: 0, c: cc }
    }

    /// The flow stays within the capacity, in both directions.
    pub open spec fn bounded(self) -> bool {
        0 <= self.c && -self.c <= self.f <= self.c
    }

    /// Whether `w` is one of the two endpoints.
    pub open spec fn touches(self, w: int) -> bool {
        self.u == w || self.v == w
    }

    /// The endpoint opposite to `w`.
    pub open spec fn peer(self, w: int) -> int {
        if self.u == w {
            self.v as int
        } else {
            self.u as int
        }
    }

    /// What can still be sent away from the endpoint `from`.
    pub open spec fn residual(self, from: int) -> int {
        if self.u == from {
            self.c - self.f
        } else {
            self.c + self.f
        }
    }

    /// The edge after `d` more units have been sent away from `from`.
    pub open spec fn carrying(self, from: int, d: int) -> Edge {
        Edge {
            f: (if self.u == from {
                self.f + d
            } else {
                self.f - d
            }) as i32,
            ..self
        }
    }

    /// The endpoint opposite to `w`.
    pub fn other(&self, w: usize) -> (p: usize)
        ensures
            p == self.peer(w as int),
    {
        if self.u == w {
            self.v
        } else {
            self.u
        }
    }

    /// What can still be sent away from the endpoint `from`. The result is
    /// wider than a flow value: an edge that carries its full capacity one
    /// way has twice that capacity left the other way.
    pub fn residual_from(&self, from: usize) -> (r: i64)
        ensures
            r == self.residual(from as int),
    {
        if self.u == from {
            self.c as i64 - self.f as i64
        } else {
            self.c as i64 + self.f as i64
        }
    }
}

/// How much a push from `u` to `v` along `edge` moves: nothing unless `u`
/// holds excess, stands higher than `v` and the edge has room; otherwise the
/// smaller of the excess and the room.
pub open spec fn amount(u: Node, v: Node, edge: Edge) -> int {
    if u.e > 0 && u.h > v.h && edge.residual(u.i as int) > 0 {
        if u.e <= edge.residual(u.i as int) {
            u.e as int
        } else {
            edge.residual(u.i as int)
        }
    } else {
        0
    }
}

/// Pushes excess from `u` to `v` along `edge`, and says whether anything moved.
pub fn push(u: &mut Node, v: &mut Node, edge: &mut Edge) -> (pushed: bool)
    requires
        old(edge).bounded(),
        old(v).e + amount(*old(u), *old(v), *old(edge)) <= i32::MAX,
    ensures
        pushed == (amount(*old(u), *old(v), *old(edge)) > 0),
        *final(u) == old(u).gaining(-amount(*old(u), *old(v), *old(edge))),
        *final(v) == old(v).gaining(amount(*old(u), *old(v), *old(edge))),
        *final(edge) == old(edge).carrying(old(u).i as int, amount(*old(u), *old(v), *old(edge))),
{
    if u.e <= 0 || u.h <= v.h {
        return false;
    }
    let room: i64 = edge.residual_from(u.i);
    if room <= 0 {
        return false;
    }
    let d: i32 = if (u.e as i64) <= room {
        u.e
    } else {
        room as i32
    };
    if edge.u == u.i {
        edge.f = edge.f + d;
    } else {
        edge.f = edge.f - d;
    }
    u.e = u.e - d;
    v.e = v.e + d;
    true
}

/// Sends the full capacity of the empty `edge` from the source `s` to the
/// node `v` at its other end.
pub fn flood(s: &mut Node, v: &mut Node, edge: &mut Edge)
    requires
        old(edge).f == 0,
        old(edge).c >= 0,
        old(s).e - old(edge).c >= i32::MIN,
        old(v).e + old(edge).c <= i32::MAX,
    ensures
        *final(s) == old(s).gaining(-old(edge).c),
        *final(v) == old(v).gaining(old(edge).c as int),
        *final(edge) == old(edge).carrying(old(s).i as int, old(edge).c as int),
{
    let d: i32 = edge.c;
    if edge.u == s.i {
        edge.f = edge.f + d;
    } else {
        edge.f = edge.f - d;
    }
    s.e = s.e - d;
    v.e = v.e + d;
}

/// Raises `u` by one level.
pub fn relabel(u: &mut Node)
    requires
        old(u).h < i32::MAX,
    ensures
        *final(u) == old(u).raised(),
{
    u.h = u.h + 1;
}

} // verus!
