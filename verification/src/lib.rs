//! A behavior-tree execution engine: a single-threaded, event-driven scheduler
//! that drives a tree of composable control-flow nodes (Sequence, Selector,
//! Parallel, Repeater, Monitor, Active Selector) over leaf actions, one tick
//! at a time.
//!
//! Nodes live in an arena addressed by integer indices; parents always stand
//! after their children, so every recursive walk over the tree terminates.
//! Each mutating operation of the engine is specified exactly by a spec-level
//! mirror in [`semantics`], and the laws in [`laws`] are proved from those
//! mirrors.

pub mod status;
pub mod behavior;
pub mod semantics;
pub mod tree;
pub mod helpers;
pub mod laws;

pub use status::Status;
pub use behavior::{
    Action, ActiveSelector, Behavior, Event, Monitor, NodeState, Parallel, ParallelPolicy,
    Repeater, Selector, Sequence,
};
pub use tree::Tree;
pub use helpers::{action, custom, repeater, selector, sequence};
