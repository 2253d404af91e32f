//! Maximum flow by the preflow-push method, with its correctness proved.
//!
//! The crate keeps a flow network as an arena of node and edge records behind
//! stable integer indices, a first-in first-out queue of the nodes that hold
//! excess, and the discharge step that workers apply to one node at a time.
//!
//! - `records`: node and edge records, pushing along one edge, raising a node.
//! - `queue`: the queue of active nodes and the test for the end.
//! - `network`: the network itself, with `Network::run` and `max_flow`.
//! - `model`: the network as a mathematical value and the steps between its
//!   states.
//! - `flow`, `sums`: flows, maximum flows, and sums of integers.
//! - `cuts`, `steps`, `seeding`, `rounds`, `potential`: the proofs that every
//!   step keeps the invariant, that the method ends, and that it ends with a
//!   maximum flow.
//! - `laws`: what holds of every run.

pub mod cuts;
pub mod flow;
pub mod laws;
pub mod model;
pub mod network;
pub mod potential;
pub mod queue;
pub mod records;
pub mod rounds;
pub mod seeding;
pub mod steps;
pub mod sums;

pub use network::{max_flow, BuildError, Network};
pub use queue::{are_we_done, enter_excess, leave_excess, ExcessQueue, Turn};
pub use records::{flood, push, relabel, Edge, Node};
