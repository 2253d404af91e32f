//! The queue of active nodes: who may enter, who leaves next, and when the
//! computation is over.

use std::collections::VecDeque;
use vstd::prelude::*;
use crate::records::Node;

verus! {

/// The nodes that hold excess and wait to be discharged, oldest first,
/// together with the mark that tells workers to stop.
pub struct ExcessQueue {
    queue: VecDeque<usize>,
    done: bool,
}

/// What a worker that asks for work is told.
#[derive(Clone, Copy, Debug, PartialEq, Eq, Structural)]
pub enum Turn {
    /// Discharge this node.
    Work(usize),
    /// Nothing is waiting, and flow is still under way elsewhere.
    Wait,
    /// All the flow that left the source has arrived: stop.
    Done,
}

impl View for ExcessQueue {
    type V = Seq<usize>;

    /// The waiting nodes, oldest first.
    closed spec fn view(&self) -> Seq<usize> {
        self.queue@
    }
}

impl ExcessQueue {
    /// Whether the end of the computation has been announced.
    pub closed spec fn finished(&self) -> bool {
        self.done
    }

    /// An empty queue, with nothing announced.
    pub fn new() -> (excess: ExcessQueue)
        ensures
            excess@ == Seq::<usize>::empty(),
            !excess.finished(),
    {
        ExcessQueue { queue: VecDeque::new(), done: false }
    }

    /// How many nodes are waiting.
    pub fn len(&self) -> (len: usize)
        ensures
            len == self@.len(),
    {
        self.queue.len()
    }

    /// Whether the end of the computation has been announced.
    pub fn is_done(&self) -> (done: bool)
        ensures
            done == self.finished(),
    {
        self.done
    }
}

/// Whether `node` may enter the queue of a network of `n` nodes: it is neither
/// the source nor the sink, it holds excess, and it is not waiting already.
pub open spec fn may_enter(node: Node, n: int) -> bool {
    node.i != 0 && node.i != n - 1 && node.e > 0 && !node.in_queue
}

/// Whether all that left the source `s` has arrived at the sink `t`.
pub open spec fn balanced(s: Node, t: Node) -> bool {
    t.e == -(s.e as int)
}

/// Puts `u` at the back of the queue and marks it, if it may enter; otherwise
/// leaves both as they are.
pub fn enter_excess(excess: &mut ExcessQueue, u: &mut Node, n: usize)
    ensures
        final(excess).finished() == old(excess).finished(),
        may_enter(*old(u), n as int) ==> final(excess)@ == old(excess)@.push(old(u).i) && *final(u)
            == old(u).marked(true),
        !may_enter(*old(u), n as int) ==> final(excess)@ == old(excess)@ && *final(u) == *old(u),
{
    if u.i != 0 && (n == 0 || u.i != n - 1) && u.e > 0 && !u.in_queue {
        excess.queue.push_back(u.i);
        u.in_queue = true;
    }
}

/// Whether the flow that left the source has all arrived at the sink.
pub fn are_we_done(nodes: &Vec<Node>, n: usize) -> (done: bool)
    requires
        0 < n <= nodes.len(),
    ensures
        done == balanced(nodes@[0], nodes@[n - 1]),
{
    let t: i64 = nodes[n - 1].e as i64;
    let s: i64 = nodes[0].e as i64;
    t == -s
}

/// Takes the oldest waiting node out of the queue and clears its mark. With
/// nothing waiting, announces the end if the flow is balanced, and asks the
/// worker to wait if it is not.
pub fn leave_excess(excess: &mut ExcessQueue, nodes: &mut Vec<Node>, n: usize) -> (turn: Turn)
    requires
        0 < n <= old(nodes).len(),
        forall|k: int| 0 <= k < old(excess)@.len() ==> old(excess)@[k] < old(nodes).len(),
    ensures
        old(excess)@.len() > 0 ==> {
            &&& turn == Turn::Work(old(excess)@[0])
            &&& final(excess)@ == old(excess)@.drop_first()
            &&& final(excess).finished() == old(excess).finished()
            &&& final(nodes)@ == old(nodes)@.update(
                old(excess)@[0] as int,
                old(nodes)@[old(excess)@[0] as int].marked(false),
            )
        },
        old(excess)@.len() == 0 ==> {
            &&& final(excess)@ == old(excess)@
            &&& final(nodes)@ == old(nodes)@
        },
        old(excess)@.len() == 0 && balanced(old(nodes)@[0], old(nodes)@[n - 1]) ==> {
            &&& turn == Turn::Done
            &&& final(excess).finished()
        },
        old(excess)@.len() == 0 && !balanced(old(nodes)@[0], old(nodes)@[n - 1]) ==> {
            &&& turn == Turn::Wait
            &&& final(excess).finished() == old(excess).finished()
        },
{
    match excess.queue.pop_front() {
        Some(u) => {
            assert(u == old(excess)@[0]);
            let mut node = nodes[u];
            node.in_queue = false;
            nodes.set(u, node);
            Turn::Work(u)
        },
        None => {
            if are_we_done(nodes, n) {
                excess.done = true;
                Turn::Done
            } else {
                Turn::Wait
            }
        },
    }
}

} // verus!
