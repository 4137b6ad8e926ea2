//! Discrete-event simulator for a hierarchical secure-aggregation protocol.
//!
//! A querier, groups of aggregators, groups of leaf aggregators and single
//! contributors form a tree. The [`manager::Manager`] owns every node and a
//! time-ordered message queue; each node is a transition function from a
//! delivered message to its local state and a list of follow-up messages.
//! Virtual time is counted in whole time units and share values are integers.
//!
//! - `run`, `common`: configuration and addresses.
//! - `shares`: additive shares and their fold.
//! - `message`, `queue`: messages, their delivery order and the ordered queue.
//! - `tree_node`, `tree`: topology and the construction of the tree.
//! - `node`, `handlers`: per-node state and the role-specific message handlers.
//! - `manager`, `setup`, `recording`: the event loop, the initial state, the trace.
//! - `counts`: the law that every share carries the count of the contributors
//!   folded into it.
//! - `seed`: the bytes that seed a run's pseudo-random generator.
//!
//! Random draws (leaf sizes, lifetimes, split offsets) are made by the caller
//! and handed to [`manager::Manager::setup`].

pub mod common;
pub mod run;
pub mod shares;
pub mod message;
pub mod queue;
pub mod tree_node;
pub mod node;
pub mod handlers;
pub mod recording;
pub mod manager;
pub mod tree;
pub mod setup;
pub mod seed;
pub mod counts;
pub mod determinism;
