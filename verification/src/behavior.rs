//! The node kinds of the tree and the data the scheduler keeps per node:
//! the immutable shape of each node (children, policies, script) and its
//! mutable scheduling state.

use vstd::prelude::*;
use crate::status::Status;

verus! {

/// Aggregation rule for a Parallel node, applied independently to successes
/// and to failures.
///
/// `One`: a single matching child resolves the parent immediately.
/// `OneDelayed`: the parent waits for every child, then resolves to this
/// outcome if at least one child matched.
/// `All`: every child must match.
#[derive(Clone, Copy, Debug, PartialEq, Eq, Structural)]
pub enum ParallelPolicy {
    One,
    OneDelayed,
    All,
}

/// A leaf node. Its observable behavior is the sequence of statuses its work
/// reports on successive ticks of one activation: the script. A tick past the
/// end of the script keeps reporting the script's last entry, so a script of
/// one entry models a leaf whose answer never changes; the empty script
/// reports `Failure`.
pub struct Action {
    pub script: Vec<Status>,
}

impl Action {
    pub fn new(script: Vec<Status>) -> (r: Action)
        ensures
            r == (Action { script }),
    {
        Action { script }
    }
}

/// Runs its children in order; succeeds only if all succeed, and short-circuits
/// on the first child that does not.
pub struct Sequence {
    pub children: Vec<usize>,
}

impl Sequence {
    pub fn new(children: Vec<usize>) -> (r: Sequence)
        ensures
            r == (Sequence { children }),
    {
        Sequence { children }
    }
}

/// Runs its children in order; succeeds as soon as one succeeds, and adopts
/// the last child's result if none does.
pub struct Selector {
    pub children: Vec<usize>,
}

impl Selector {
    pub fn new(children: Vec<usize>) -> (r: Selector)
        ensures
            r == (Selector { children }),
    {
        Selector { children }
    }
}

/// Activates all of its children at once and aggregates their terminal
/// results under a success policy and a failure policy.
pub struct Parallel {
    pub children: Vec<usize>,
    pub success_policy: ParallelPolicy,
    pub failure_policy: ParallelPolicy,
}

impl Parallel {
    pub fn new(children: Vec<usize>, success_policy: ParallelPolicy, failure_policy: ParallelPolicy) -> (r: Parallel)
        ensures
            r == (Parallel { children, success_policy, failure_policy }),
    {
        Parallel { children, success_policy, failure_policy }
    }
}

/// Re-runs its single child up to `repeat_for` times, then adopts the child's
/// last terminal result.
pub struct Repeater {
    pub child: usize,
    pub repeat_for: usize,
}

impl Repeater {
    pub fn new(child: usize, repeat_for: usize) -> (r: Repeater)
        ensures
            r == (Repeater { child, repeat_for }),
    {
        Repeater { child, repeat_for }
    }
}

/// A guarded action: the `actions` subtree runs only while the `conditions`
/// subtree keeps completing with `Success`. The guard is re-checked on every
/// completion; when it stops holding, a still-running `actions` subtree is
/// aborted and the monitor adopts the guard's result.
pub struct Monitor {
    pub conditions: usize,
    pub actions: usize,
}

impl Monitor {
    pub fn new(conditions: usize, actions: usize) -> (r: Monitor)
        ensures
            r == (Monitor { conditions, actions }),
    {
        Monitor { conditions, actions }
    }
}

/// Priority arbitration between a `high_priority` subtree and a
/// `low_priority` Parallel node. High priority wins as soon as it succeeds;
/// otherwise the low-priority children are advanced one completion at a time,
/// interleaved with re-checks of the high-priority subtree, so a late
/// high-priority success can still preempt.
pub struct ActiveSelector {
    pub high_priority: usize,
    pub low_priority: usize,
}

impl ActiveSelector {
    pub fn new(high_priority: usize, low_priority: usize) -> (r: ActiveSelector)
        ensures
            r == (ActiveSelector { high_priority, low_priority }),
    {
        ActiveSelector { high_priority, low_priority }
    }
}

/// The closed set of node kinds the scheduler dispatches over. The node kinds
/// are fixed, so the engine uses a tagged variant set rather than open-ended
/// subtype polymorphism.
pub enum Behavior {
    Action(Action),
    Sequence(Sequence),
    Selector(Selector),
    Parallel(Parallel),
    Repeater(Repeater),
    Monitor(Monitor),
    ActiveSelector(ActiveSelector),
}

/// The mutable scheduling state of one node. The immutable shape of the node
/// (its children, policies, script) lives in [`Behavior`]; everything the
/// scheduler updates while the tree runs lives here.
///
/// `cursor` is the script position of a leaf, the index of the active child
/// of a Sequence or Selector, and the next not-yet-started child of a
/// Parallel. `activations` counts calls of the node's initialize and `ticks`
/// its ticks; both are saturating tallies for observation and are never reset.
#[derive(Clone, Copy, Debug, PartialEq, Eq, Structural)]
pub struct NodeState {
    pub status: Status,
    pub cursor: usize,
    pub success_count: usize,
    pub failure_count: usize,
    pub current_loop: usize,
    pub activations: usize,
    pub ticks: usize,
}

impl NodeState {
    /// The state of a node that has never been started.
    pub open spec fn initial() -> NodeState {
        NodeState {
            status: Status::Invalid,
            cursor: 0,
            success_count: 0,
            failure_count: 0,
            current_loop: 0,
            activations: 0,
            ticks: 0,
        }
    }

    pub fn new() -> (r: NodeState)
        ensures
            r == NodeState::initial(),
    {
        NodeState {
            status: Status::Invalid,
            cursor: 0,
            success_count: 0,
            failure_count: 0,
            current_loop: 0,
            activations: 0,
            ticks: 0,
        }
    }
}

/// One entry of the scheduler's pending-work queue: the node to tick, and the
/// parent to report a terminal result to. The parent is a back-reference
/// passed per entry, never stored in a node.
#[derive(Clone, Copy, Debug)]
pub struct Event {
    pub node: usize,
    pub parent: Option<usize>,
}

} // verus!
