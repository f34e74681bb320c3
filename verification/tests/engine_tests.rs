use behave::{
    action, custom, repeater, selector, sequence, Action, ActiveSelector, Behavior, Monitor,
    Parallel, ParallelPolicy, Status, Tree,
};

const STEPS: usize = 10_000;

#[test]
fn empty_sequence_fails() {
    let mut tree = Tree::new();
    let root = sequence(&mut tree, vec![]);
    assert_eq!(Status::Failure, tree.run(root, STEPS));
}

#[test]
fn empty_selector_fails() {
    let mut tree = Tree::new();
    let root = selector(&mut tree, vec![]);
    assert_eq!(Status::Failure, tree.run(root, STEPS));
}

#[test]
fn empty_parallel_fails() {
    let mut tree = Tree::new();
    let root = custom(
        &mut tree,
        Behavior::Parallel(Parallel::new(vec![], ParallelPolicy::One, ParallelPolicy::One)),
    );
    assert_eq!(Status::Failure, tree.run(root, STEPS));
}

#[test]
fn leaf_with_empty_script_fails() {
    let mut tree = Tree::new();
    let root = action(&mut tree, vec![]);
    assert_eq!(Status::Failure, tree.run(root, STEPS));
}

#[test]
fn repeater_zero_runs_child_once() {
    let mut tree = Tree::new();
    let a = action(&mut tree, vec![Status::Success]);
    let root = repeater(&mut tree, a, 0);
    assert_eq!(Status::Success, tree.run(root, STEPS));
    assert_eq!(tree.state_of(a).ticks, 1);
    assert_eq!(tree.state_of(a).activations, 1);
}

#[test]
fn leaf_runs_across_steps() {
    let mut tree = Tree::new();
    let a = action(&mut tree, vec![Status::Running, Status::Running, Status::Success]);
    let root = sequence(&mut tree, vec![a]);
    assert_eq!(Status::Success, tree.run(root, STEPS));
    assert_eq!(tree.state_of(a).ticks, 3);
}

#[test]
fn nested_composites() {
    let mut tree = Tree::new();
    let a1 = action(&mut tree, vec![Status::Success]);
    let a2 = action(&mut tree, vec![Status::Failure]);
    let seq1 = sequence(&mut tree, vec![a1, a2]);
    let a3 = action(&mut tree, vec![Status::Success]);
    let a4 = action(&mut tree, vec![Status::Success]);
    let seq2 = sequence(&mut tree, vec![a3, a4]);
    let root = selector(&mut tree, vec![seq1, seq2]);
    assert_eq!(Status::Success, tree.run(root, STEPS));
    assert_eq!(tree.state_of(a1).ticks, 1);
    assert_eq!(tree.state_of(a2).ticks, 1);
    assert_eq!(tree.state_of(a3).ticks, 1);
    assert_eq!(tree.state_of(a4).ticks, 1);
    assert_eq!(tree.state_of(seq1).status, Status::Failure);
    assert_eq!(tree.state_of(seq2).status, Status::Success);
}

#[test]
fn parallel_one_failure_terminates_running_children() {
    // failure policy One, success policy All: the first reported Failure
    // resolves the parent at once and the still-running children are
    // terminated rather than left in the queue.
    let mut tree = Tree::new();
    let c1 = action(&mut tree, vec![Status::Failure]);
    let c2 = action(&mut tree, vec![Status::Success]);
    let c3 = action(&mut tree, vec![Status::Running]);
    let root = custom(
        &mut tree,
        Behavior::Parallel(Parallel::new(
            vec![c1, c2, c3],
            ParallelPolicy::All,
            ParallelPolicy::One,
        )),
    );
    assert_eq!(Status::Failure, tree.run(root, STEPS));
    assert_eq!(tree.state_of(c1).status, Status::Failure);
    assert_eq!(tree.state_of(c2).status, Status::Aborted);
    assert_eq!(tree.state_of(c3).status, Status::Aborted);
    assert_eq!(tree.state_of(root).failure_count, 1);
}

#[test]
fn parallel_all_success() {
    let mut tree = Tree::new();
    let c1 = action(&mut tree, vec![Status::Success]);
    let c2 = action(&mut tree, vec![Status::Running, Status::Success]);
    let c3 = action(&mut tree, vec![Status::Success]);
    let root = custom(
        &mut tree,
        Behavior::Parallel(Parallel::new(
            vec![c1, c2, c3],
            ParallelPolicy::All,
            ParallelPolicy::One,
        )),
    );
    assert_eq!(Status::Success, tree.run(root, STEPS));
    assert_eq!(tree.state_of(root).success_count, 3);
    assert_eq!(tree.state_of(root).failure_count, 0);
}

#[test]
fn parallel_one_delayed_success() {
    // success policy OneDelayed: the parent waits for every child, then
    // succeeds because at least one child succeeded and the failure policy
    // (All) did not match.
    let mut tree = Tree::new();
    let c1 = action(&mut tree, vec![Status::Failure]);
    let c2 = action(&mut tree, vec![Status::Success]);
    let c3 = action(&mut tree, vec![Status::Failure]);
    let root = custom(
        &mut tree,
        Behavior::Parallel(Parallel::new(
            vec![c1, c2, c3],
            ParallelPolicy::OneDelayed,
            ParallelPolicy::All,
        )),
    );
    assert_eq!(Status::Success, tree.run(root, STEPS));
    assert_eq!(tree.state_of(root).success_count, 1);
    assert_eq!(tree.state_of(root).failure_count, 2);
}

#[test]
fn parallel_failure_checked_first() {
    // both delayed policies match once every child has reported; the
    // failure policy takes priority.
    let mut tree = Tree::new();
    let c1 = action(&mut tree, vec![Status::Success]);
    let c2 = action(&mut tree, vec![Status::Failure]);
    let root = custom(
        &mut tree,
        Behavior::Parallel(Parallel::new(
            vec![c1, c2],
            ParallelPolicy::OneDelayed,
            ParallelPolicy::OneDelayed,
        )),
    );
    assert_eq!(Status::Failure, tree.run(root, STEPS));
}

#[test]
fn repeater_adopts_last_result() {
    let mut tree = Tree::new();
    let a = action(&mut tree, vec![Status::Success, Status::Failure, Status::Failure]);
    let root = repeater(&mut tree, a, 3);
    assert_eq!(Status::Failure, tree.run(root, STEPS));
    assert_eq!(tree.state_of(a).ticks, 3);
    assert_eq!(tree.state_of(a).activations, 3);
    assert_eq!(tree.state_of(root).current_loop, 3);
}

#[test]
fn monitor_runs_actions_under_guard() {
    // the guard keeps succeeding; the actions resolve and the monitor
    // adopts their result.
    let mut tree = Tree::new();
    let cond = action(&mut tree, vec![Status::Success]);
    let act = action(&mut tree, vec![Status::Running, Status::Success]);
    let root = custom(&mut tree, Behavior::Monitor(Monitor::new(cond, act)));
    assert_eq!(Status::Success, tree.run(root, STEPS));
    assert_eq!(tree.state_of(act).status, Status::Success);
}

#[test]
fn monitor_guard_failure_aborts_actions() {
    // the guard reports Success, Success, Failure on three completions
    // while the actions are still running: the monitor fails and the
    // in-progress actions subtree is aborted, not left dangling.
    let mut tree = Tree::new();
    let cond = action(&mut tree, vec![Status::Success, Status::Success, Status::Failure]);
    let act = action(&mut tree, vec![Status::Running]);
    let root = custom(&mut tree, Behavior::Monitor(Monitor::new(cond, act)));
    assert_eq!(Status::Failure, tree.run(root, STEPS));
    assert_eq!(tree.state_of(act).status, Status::Aborted);
    assert_eq!(tree.state_of(cond).ticks, 3);
}

#[test]
fn active_selector_high_priority_preempts() {
    // the high-priority subtree fails its first check, so the low-priority
    // round starts; after the first low-priority completion the high
    // priority is re-checked, succeeds, and preempts the round.
    let mut tree = Tree::new();
    let high = action(&mut tree, vec![Status::Failure, Status::Success]);
    let c1 = action(&mut tree, vec![Status::Success]);
    let c2 = action(&mut tree, vec![Status::Success]);
    let low = custom(
        &mut tree,
        Behavior::Parallel(Parallel::new(
            vec![c1, c2],
            ParallelPolicy::All,
            ParallelPolicy::All,
        )),
    );
    let root = custom(&mut tree, Behavior::ActiveSelector(ActiveSelector::new(high, low)));
    assert_eq!(Status::Success, tree.run(root, STEPS));
    assert_eq!(tree.state_of(high).ticks, 2);
    assert_eq!(tree.state_of(low).status, Status::Aborted);
    assert_eq!(tree.state_of(c2).ticks, 0);
}

#[test]
fn active_selector_low_priority_resolves() {
    // the high priority keeps failing; the low-priority children are
    // advanced one at a time until the success policy (One) resolves the
    // round, and the active selector adopts its result.
    let mut tree = Tree::new();
    let high = action(&mut tree, vec![Status::Failure]);
    let f1 = action(&mut tree, vec![Status::Failure]);
    let s1 = action(&mut tree, vec![Status::Success]);
    let low = custom(
        &mut tree,
        Behavior::Parallel(Parallel::new(
            vec![f1, s1],
            ParallelPolicy::One,
            ParallelPolicy::All,
        )),
    );
    let root = custom(&mut tree, Behavior::ActiveSelector(ActiveSelector::new(high, low)));
    assert_eq!(Status::Success, tree.run(root, STEPS));
    assert_eq!(tree.state_of(low).status, Status::Success);
    assert_eq!(tree.state_of(high).activations, 2);
}

#[test]
fn monitor_restart_leaves_cleared_actions_unscheduled() {
    // a repeater re-runs a monitor whose guard failed while the actions
    // were running: re-initializing the monitor clears the actions node and
    // drops its stale queue entry, so the cleared actions are never ticked
    // again until the guard activates them anew (which here it never does).
    let mut tree = Tree::new();
    let act = action(&mut tree, vec![Status::Running]);
    let cond = action(&mut tree, vec![Status::Success, Status::Failure]);
    let mon = custom(&mut tree, Behavior::Monitor(Monitor::new(cond, act)));
    let root = repeater(&mut tree, mon, 2);
    assert_eq!(Status::Failure, tree.run(root, STEPS));
    assert_eq!(tree.state_of(act).status, Status::Invalid);
    assert_eq!(tree.state_of(act).ticks, 1);
    assert_eq!(tree.state_of(act).activations, 1);
    assert_eq!(tree.state_of(cond).ticks, 3);
    assert_eq!(tree.state_of(root).current_loop, 2);
}

#[test]
fn repeater_reinit_after_abort_keeps_single_entries() {
    // a repeater re-runs a parallel that had aborted two still-running
    // children whose queue entries were still pending: re-activation drops
    // the stale entries, so each child keeps a single entry and is ticked
    // exactly once per round.
    let mut tree = Tree::new();
    let c1 = action(&mut tree, vec![Status::Running, Status::Success]);
    let c2 = action(&mut tree, vec![Status::Running, Status::Success]);
    let c3 = action(&mut tree, vec![Status::Failure, Status::Success]);
    let par = custom(
        &mut tree,
        Behavior::Parallel(Parallel::new(
            vec![c1, c2, c3],
            ParallelPolicy::All,
            ParallelPolicy::One,
        )),
    );
    let root = repeater(&mut tree, par, 2);
    assert_eq!(Status::Success, tree.run(root, STEPS));
    assert_eq!(tree.state_of(c1).ticks, 2);
    assert_eq!(tree.state_of(c2).ticks, 2);
    assert_eq!(tree.state_of(c3).ticks, 2);
    assert_eq!(tree.state_of(c1).activations, 2);
    assert_eq!(tree.state_of(par).success_count, 3);
    assert_eq!(tree.state_of(par).failure_count, 0);
}

#[test]
fn abort_running_subtree() {
    let mut tree = Tree::new();
    let a = action(&mut tree, vec![Status::Running]);
    let root = sequence(&mut tree, vec![a]);
    tree.start(root);
    assert!(tree.step());
    tree.abort(root);
    assert_eq!(tree.state_of(root).status, Status::Aborted);
    assert_eq!(tree.state_of(a).status, Status::Aborted);
    // the aborted entries are consumed without being ticked again
    let ticks_before = tree.state_of(a).ticks;
    while tree.step() {}
    assert_eq!(tree.state_of(a).ticks, ticks_before);
}

#[test]
fn step_returns_false_when_idle() {
    let mut tree = Tree::new();
    let a = action(&mut tree, vec![Status::Success]);
    let root = sequence(&mut tree, vec![a]);
    tree.start(root);
    let mut steps: usize = 0;
    while tree.step() {
        steps += 1;
    }
    assert!(steps > 0);
    assert!(!tree.step());
    assert_eq!(tree.status_of(root), Status::Success);
}

#[test]
fn restart_resets_scheduling_state() {
    // running a tree to completion and starting it again resets the
    // scheduling state of every node the initialization reaches, exactly as
    // in a freshly built tree.
    let mut tree = Tree::new();
    let a1 = action(&mut tree, vec![Status::Success]);
    let a2 = action(&mut tree, vec![Status::Failure]);
    let root = sequence(&mut tree, vec![a1, a2]);
    assert_eq!(Status::Failure, tree.run(root, STEPS));
    assert_eq!(tree.state_of(root).cursor, 1);

    tree.start(root);
    assert_eq!(tree.state_of(root).status, Status::Running);
    assert_eq!(tree.state_of(root).cursor, 0);
    assert_eq!(tree.state_of(a1).status, Status::Running);

    assert_eq!(Status::Failure, tree.run(root, STEPS));
}
