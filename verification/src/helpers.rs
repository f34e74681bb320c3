//! Builders that grow a tree bottom-up. Every child index handed to a
//! builder must already be in the arena, so a built tree is well-formed by
//! construction.

use vstd::prelude::*;
use crate::behavior::{Action, Behavior, NodeState, Repeater, Selector, Sequence};
use crate::semantics::behavior_wf;
use crate::status::Status;
use crate::tree::Tree;

verus! {

/// Add a pre-built behavior of any kind to the tree. All the other builders
/// go through this one; it is also the way to add node kinds without a
/// dedicated builder, such as Parallel, Monitor or ActiveSelector.
pub fn custom(tree: &mut Tree, behavior: Behavior) -> (i: usize)
    requires
        old(tree).wf(),
        behavior_wf(old(tree).structure().push(behavior), old(tree).structure().len() as int),
    ensures
        final(tree).wf(),
        i == old(tree).structure().len(),
        final(tree).structure() == old(tree).structure().push(behavior),
        final(tree).sched().states == old(tree).sched().states.push(NodeState::initial()),
        final(tree).sched().events == old(tree).sched().events,
{
    tree.add_node(behavior)
}

/// Add a leaf that reports the entries of `script` on successive ticks.
pub fn action(tree: &mut Tree, script: Vec<Status>) -> (i: usize)
    requires
        old(tree).wf(),
    ensures
        final(tree).wf(),
        i == old(tree).structure().len(),
        final(tree).structure() == old(tree).structure().push(
            Behavior::Action(Action { script }),
        ),
        final(tree).sched().states == old(tree).sched().states.push(NodeState::initial()),
        final(tree).sched().events == old(tree).sched().events,
{
    tree.add_node(Behavior::Action(Action::new(script)))
}

/// Add a Sequence over children already in the tree.
pub fn sequence(tree: &mut Tree, children: Vec<usize>) -> (i: usize)
    requires
        old(tree).wf(),
        forall|k: int| 0 <= k < children@.len() ==> (children@[k] as int) < old(tree).structure().len(),
    ensures
        final(tree).wf(),
        i == old(tree).structure().len(),
        final(tree).structure() == old(tree).structure().push(
            Behavior::Sequence(Sequence { children }),
        ),
        final(tree).sched().states == old(tree).sched().states.push(NodeState::initial()),
        final(tree).sched().events == old(tree).sched().events,
{
    tree.add_node(Behavior::Sequence(Sequence::new(children)))
}

/// Add a Selector over children already in the tree.
pub fn selector(tree: &mut Tree, children: Vec<usize>) -> (i: usize)
    requires
        old(tree).wf(),
        forall|k: int| 0 <= k < children@.len() ==> (children@[k] as int) < old(tree).structure().len(),
    ensures
        final(tree).wf(),
        i == old(tree).structure().len(),
        final(tree).structure() == old(tree).structure().push(
            Behavior::Selector(Selector { children }),
        ),
        final(tree).sched().states == old(tree).sched().states.push(NodeState::initial()),
        final(tree).sched().events == old(tree).sched().events,
{
    tree.add_node(Behavior::Selector(Selector::new(children)))
}

/// Add a Repeater that re-runs `child` up to `repeat_for` times.
pub fn repeater(tree: &mut Tree, child: usize, repeat_for: usize) -> (i: usize)
    requires
        old(tree).wf(),
        (child as int) < old(tree).structure().len(),
    ensures
        final(tree).wf(),
        i == old(tree).structure().len(),
        final(tree).structure() == old(tree).structure().push(
            Behavior::Repeater(Repeater { child, repeat_for }),
        ),
        final(tree).sched().states == old(tree).sched().states.push(NodeState::initial()),
        final(tree).sched().events == old(tree).sched().events,
{
    tree.add_node(Behavior::Repeater(Repeater::new(child, repeat_for)))
}

} // verus!
