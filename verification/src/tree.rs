//! The scheduler: the arena of nodes, the FIFO queue of pending work, and
//! the event-driven ticking loop. Every mutating operation's contract states
//! that its effect equals the corresponding spec-level mirror in
//! [`crate::semantics`].

use vstd::prelude::*;
use crate::status::Status;
use crate::behavior::{Behavior, Event, NodeState, ParallelPolicy};
use crate::semantics::{
    abort_effect, abort_running_list, activate_all, behavior_wf, clear_effect, cleared,
    complete_effect, complete_high, complete_low, count_node, drop_node,
    enqueue_node, event_wf, init_effect, init_first, kids, lemma_count_drop_node,
    lemma_count_push, lemma_drop_node_events_wf, lemma_drop_node_push, run_effect, sched_wf,
    set_state, push_event, start_effect, started, started_all, started_empty, started_leaf,
    state_wf, step_effect, structure_wf, tally, tick_effect, Sched,
};

verus! {

/// Executable counterpart of [`tally`]: saturating increment of an
/// observation counter.
fn tally_up(n: usize) -> (r: usize)
    ensures
        r == tally(n),
{
    if n < usize::MAX {
        n + 1
    } else {
        n
    }
}

/// Executable counterpart of [`started`].
fn mk_started(st: NodeState) -> (r: NodeState)
    ensures
        r == started(st),
{
    NodeState {
        status: Status::Running,
        cursor: 0,
        success_count: 0,
        failure_count: 0,
        current_loop: 0,
        activations: tally_up(st.activations),
        ticks: st.ticks,
    }
}

/// Executable counterpart of [`started_leaf`].
fn mk_started_leaf(st: NodeState) -> (r: NodeState)
    ensures
        r == started_leaf(st),
{
    NodeState { cursor: st.cursor, ..mk_started(st) }
}

/// Executable counterpart of [`started_empty`].
fn mk_started_empty(st: NodeState) -> (r: NodeState)
    ensures
        r == started_empty(st),
{
    NodeState { status: Status::Failure, ..mk_started(st) }
}

/// Executable counterpart of [`started_all`].
fn mk_started_all(st: NodeState, n: usize) -> (r: NodeState)
    ensures
        r == started_all(st, n),
{
    NodeState { cursor: n, ..mk_started(st) }
}

/// Executable counterpart of [`cleared`] and its leaf variant: `leaf` says
/// whether the node is an Action, whose script cursor survives the clearing.
fn mk_cleared(st: NodeState, leaf: bool) -> (r: NodeState)
    ensures
        r == (NodeState {
            cursor: if leaf {
                st.cursor
            } else {
                0
            },
            ..cleared(st)
        }),
{
    NodeState {
        status: Status::Invalid,
        cursor: if leaf {
            st.cursor
        } else {
            0
        },
        success_count: 0,
        failure_count: 0,
        current_loop: 0,
        activations: st.activations,
        ticks: st.ticks,
    }
}

/// The scheduler. It owns the arena of nodes — the immutable behaviors and
/// their mutable scheduling states — and the FIFO queue of pending work, and
/// drives the tree by `start`, `step` and `run`.
pub struct Tree {
    pub behaviors: Vec<Behavior>,
    pub states: Vec<NodeState>,
    pub events: Vec<Event>,
}

impl Tree {
    /// The immutable shape of the tree: one behavior per node.
    pub open spec fn structure(self) -> Seq<Behavior> {
        self.behaviors@
    }

    /// The scheduling state of the tree: per-node states and the queue.
    pub open spec fn sched(self) -> Sched {
        Sched { states: self.states@, events: self.events@ }
    }

    /// The whole tree is well-formed: children stand below their parents,
    /// every cursor, counter and queue entry is in bounds, and no node holds
    /// more than one entry in the pending-work queue.
    pub open spec fn wf(self) -> bool {
        structure_wf(self.structure()) && sched_wf(self.structure(), self.sched())
    }

    /// A fresh, empty tree.
    pub fn new() -> (r: Tree)
        ensures
            r.wf(),
            r.structure().len() == 0,
            r.sched().events.len() == 0,
    {
        Tree { behaviors: Vec::new(), states: Vec::new(), events: Vec::new() }
    }

    /// The number of nodes in the arena.
    pub fn size(&self) -> (n: usize)
        ensures
            n == self.structure().len(),
    {
        self.behaviors.len()
    }

    /// Append one node to the arena and hand back its index. Children must
    /// already be in the arena, so trees are necessarily built bottom-up and
    /// every child index stays below its parent's.
    pub fn add_node(&mut self, behavior: Behavior) -> (i: usize)
        requires
            old(self).wf(),
            behavior_wf(old(self).structure().push(behavior), old(self).structure().len() as int),
        ensures
            final(self).wf(),
            i == old(self).structure().len(),
            final(self).structure() == old(self).structure().push(behavior),
            final(self).sched().states == old(self).sched().states.push(NodeState::initial()),
            final(self).sched().events == old(self).sched().events,
    {
        let i = self.behaviors.len();
        proof {
            crate::semantics::lemma_push_node_wf(self.behaviors@, self.sched(), behavior);
        }
        self.behaviors.push(behavior);
        self.states.push(NodeState::new());
        i
    }

    /// The scheduling state of one node, for observation.
    pub fn state_of(&self, i: usize) -> (st: NodeState)
        requires
            self.wf(),
            i < self.structure().len(),
        ensures
            st == self.sched().states[i as int],
    {
        self.states[i]
    }

    /// The current cached status of one node, side-effect free.
    pub fn status_of(&self, i: usize) -> (st: Status)
        requires
            self.wf(),
            i < self.structure().len(),
        ensures
            st == self.sched().states[i as int].status,
    {
        self.states[i].status
    }

    /// Replace the scheduling state of one node, keeping the tree
    /// well-formed.
    fn set_node_state(&mut self, i: usize, st: NodeState)
        requires
            old(self).wf(),
            (i as int) < old(self).structure().len(),
            state_wf(old(self).structure(), st, i as int),
        ensures
            final(self).wf(),
            final(self).structure() == old(self).structure(),
            final(self).sched() == set_state(old(self).sched(), i as int, st),
    {
        let ghost bs = self.behaviors@;
        let ghost s_old = self.sched();
        self.states.set(i, st);
        proof {
            assert(sched_wf(bs, s_old));
            assert forall|j: int| 0 <= j < bs.len() implies state_wf(bs, #[trigger] self.states@[j], j) by {
                if j != i {
                    assert(self.states@[j] == s_old.states[j]);
                    assert(state_wf(bs, s_old.states[j], j));
                }
            }
            assert forall|j: int| 0 <= j < self.events@.len() implies event_wf(bs, #[trigger] self.events@[j]) by {
                assert(self.events@[j] == s_old.events[j]);
                assert(event_wf(bs, s_old.events[j]));
            }
            assert forall|n: usize| #[trigger] count_node(self.events@, n) <= 1 by {
                assert(self.events@ == s_old.events);
                assert(count_node(s_old.events, n) <= 1);
            }
        }
    }

    /// Push one entry to the back of the pending-work queue. The caller
    /// warrants that the node is not queued yet, keeping the at-most-once
    /// queue invariant.
    fn enqueue(&mut self, e: Event)
        requires
            old(self).wf(),
            event_wf(old(self).structure(), e),
            count_node(old(self).sched().events, e.node) == 0,
        ensures
            final(self).wf(),
            final(self).structure() == old(self).structure(),
            final(self).sched() == push_event(old(self).sched(), e),
    {
        let ghost bs = self.behaviors@;
        let ghost s_old = self.sched();
        self.events.push(e);
        proof {
            assert(sched_wf(bs, s_old));
            assert forall|j: int| 0 <= j < self.events@.len() implies event_wf(bs, #[trigger] self.events@[j]) by {
                if j < self.events@.len() - 1 {
                    assert(self.events@[j] == s_old.events[j]);
                    assert(event_wf(bs, s_old.events[j]));
                }
            }
            assert forall|n: usize| #[trigger] count_node(self.events@, n) <= 1 by {
                lemma_count_push(s_old.events, e, n);
                assert(count_node(s_old.events, n) <= 1);
            }
        }
    }

    /// Remove every pending queue entry of node `n`.
    fn dequeue_node(&mut self, n: usize)
        requires
            old(self).wf(),
        ensures
            final(self).wf(),
            final(self).structure() == old(self).structure(),
            final(self).sched().states == old(self).sched().states,
            final(self).sched().events == drop_node(old(self).sched().events, n),
    {
        let ghost bs = self.behaviors@;
        let ghost s_old = self.sched();
        let mut kept: Vec<Event> = Vec::new();
        let len = self.events.len();
        let mut k: usize = 0;
        proof {
            assert(kept@ =~= Seq::<Event>::empty());
            assert(self.events@.take(0) =~= Seq::<Event>::empty());
        }
        while k < len
            invariant
                self.wf(),
                self.structure() == bs,
                self.sched() == s_old,
                len == self.events@.len(),
                k <= len,
                kept@ == drop_node(self.events@.take(k as int), n),
            decreases len - k,
        {
            let e = self.events[k];
            proof {
                assert(self.events@.take(k + 1) =~= self.events@.take(k as int).push(e));
                lemma_drop_node_push(self.events@.take(k as int), e, n);
            }
            if e.node != n {
                kept.push(e);
            }
            k += 1;
        }
        proof {
            assert(self.events@.take(len as int) =~= self.events@);
        }
        self.events = kept;
        proof {
            assert(sched_wf(bs, s_old));
            assert(self.events@ == drop_node(s_old.events, n));
            lemma_drop_node_events_wf(bs, s_old.events, n);
            assert forall|m: usize| #[trigger] count_node(self.events@, m) <= 1 by {
                lemma_count_drop_node(s_old.events, n, m);
                assert(count_node(s_old.events, m) <= 1);
            }
        }
    }

    /// Schedule a node: drop any stale entry it still has, then push the
    /// fresh entry to the back. Activation always goes through here, so a
    /// node is never queued twice.
    fn enqueue_fresh(&mut self, e: Event)
        requires
            old(self).wf(),
            event_wf(old(self).structure(), e),
        ensures
            final(self).wf(),
            final(self).structure() == old(self).structure(),
            final(self).sched() == enqueue_node(old(self).sched(), e),
    {
        self.dequeue_node(e.node);
        proof {
            lemma_count_drop_node(old(self).sched().events, e.node, e.node);
        }
        self.enqueue(e);
    }

    /// Clear node `x`: put its bookkeeping back to the never-started state
    /// (keeping a leaf's script position) and drop any queue entry it still
    /// has, so the cleared node is no longer scheduled.
    fn clear_node(&mut self, x: usize)
        requires
            old(self).wf(),
            (x as int) < old(self).structure().len(),
        ensures
            final(self).wf(),
            final(self).structure() == old(self).structure(),
            final(self).sched() == clear_effect(old(self).structure(), old(self).sched(), x),
    {
        let stx = self.states[x];
        let leaf = matches!(&self.behaviors[x], Behavior::Action(_));
        self.set_node_state(x, mk_cleared(stx, leaf));
        self.dequeue_node(x);
    }

    /// The number of children of node `i`.
    fn child_count(&self, i: usize) -> (n: usize)
        requires
            (i as int) < self.structure().len(),
        ensures
            n == kids(self.structure()[i as int]).len(),
    {
        match &self.behaviors[i] {
            Behavior::Sequence(q) => q.children.len(),
            Behavior::Selector(q) => q.children.len(),
            Behavior::Parallel(q) => q.children.len(),
            _ => 0,
        }
    }

    /// The child of node `i` at position `k`.
    fn child_at(&self, i: usize, k: usize) -> (c: usize)
        requires
            (i as int) < self.structure().len(),
            (k as int) < kids(self.structure()[i as int]).len(),
        ensures
            c == kids(self.structure()[i as int])[k as int],
    {
        match &self.behaviors[i] {
            Behavior::Sequence(q) => q.children[k],
            Behavior::Selector(q) => q.children[k],
            Behavior::Parallel(q) => q.children[k],
            _ => {
                proof {
                    assert(false);
                }
                0
            },
        }
    }

    /// Initialize node `i`: reset its state, decide its immediate status,
    /// and activate whichever children must begin running now.
    fn init_node(&mut self, i: usize)
        requires
            old(self).wf(),
            (i as int) < old(self).structure().len(),
        ensures
            final(self).wf(),
            final(self).structure() == old(self).structure(),
            final(self).sched() == init_effect(old(self).structure(), old(self).sched(), i),
        decreases i, 3int,
    {
        proof {
            assert(behavior_wf(self.structure(), i as int));
        }
        let ghost bs = self.structure();
        let ghost s0 = self.sched();
        let st = self.states[i];
        match &self.behaviors[i] {
            Behavior::Action(_) => {
                self.set_node_state(i, mk_started_leaf(st));
                proof {
                    assert(self.sched() == init_effect(bs, s0, i));
                }
            },
            Behavior::Sequence(q) => {
                let n = q.children.len();
                let c0 = if n > 0 {
                    q.children[0]
                } else {
                    0
                };
                if n > 0 {
                    self.set_node_state(i, mk_started(st));
                    self.enqueue_fresh(Event { node: c0, parent: Some(i) });
                    self.init_node(c0);
                } else {
                    self.set_node_state(i, mk_started_empty(st));
                }
                proof {
                    assert(self.sched() == init_first(bs, s0, i, bs[i as int]->Sequence_0.children@));
                    assert(self.sched() == init_effect(bs, s0, i));
                }
            },
            Behavior::Selector(q) => {
                let n = q.children.len();
                let c0 = if n > 0 {
                    q.children[0]
                } else {
                    0
                };
                if n > 0 {
                    self.set_node_state(i, mk_started(st));
                    self.enqueue_fresh(Event { node: c0, parent: Some(i) });
                    self.init_node(c0);
                } else {
                    self.set_node_state(i, mk_started_empty(st));
                }
                proof {
                    assert(self.sched() == init_first(bs, s0, i, bs[i as int]->Selector_0.children@));
                    assert(self.sched() == init_effect(bs, s0, i));
                }
            },
            Behavior::Parallel(q) => {
                let n = q.children.len();
                if n > 0 {
                    self.set_node_state(i, mk_started_all(st, n));
                    let ghost ch = kids(bs[i as int]);
                    let ghost s_mid = self.sched();
                    let mut k: usize = 0;
                    while k < n
                        invariant
                            self.wf(),
                            self.structure() == bs,
                            (i as int) < bs.len(),
                            behavior_wf(bs, i as int),
                            bs[i as int] is Parallel,
                            ch == kids(bs[i as int]),
                            n == ch.len(),
                            k <= n,
                            activate_all(bs, self.sched(), ch, k as int, i) == activate_all(bs, s_mid, ch, 0, i),
                        decreases n - k,
                    {
                        let c = self.child_at(i, k);
                        proof {
                            assert(c < i);
                        }
                        self.enqueue_fresh(Event { node: c, parent: Some(i) });
                        self.init_node(c);
                        k += 1;
                    }
                } else {
                    self.set_node_state(i, mk_started_empty(st));
                }
                proof {
                    assert(self.sched() == init_effect(bs, s0, i));
                }
            },
            Behavior::Repeater(rp) => {
                let child = rp.child;
                self.set_node_state(i, mk_started(st));
                self.enqueue_fresh(Event { node: child, parent: Some(i) });
                self.init_node(child);
                proof {
                    assert(self.sched() == init_effect(bs, s0, i));
                }
            },
            Behavior::Monitor(m) => {
                let cond = m.conditions;
                let act = m.actions;
                self.set_node_state(i, mk_started(st));
                self.clear_node(act);
                self.enqueue_fresh(Event { node: cond, parent: Some(i) });
                self.init_node(cond);
                proof {
                    assert(self.sched() == init_effect(bs, s0, i));
                }
            },
            Behavior::ActiveSelector(a) => {
                let high = a.high_priority;
                let low = a.low_priority;
                self.set_node_state(i, mk_started(st));
                self.clear_node(low);
                self.enqueue_fresh(Event { node: high, parent: Some(i) });
                self.init_node(high);
                proof {
                    assert(self.sched() == init_effect(bs, s0, i));
                }
            },
        }
    }

    /// Tick node `i` and report the resulting status: a leaf advances its
    /// script by one entry; a composite reports its cached status.
    fn tick_node(&mut self, i: usize) -> (r: Status)
        requires
            old(self).wf(),
            (i as int) < old(self).structure().len(),
        ensures
            final(self).wf(),
            final(self).structure() == old(self).structure(),
            final(self).sched() == tick_effect(old(self).structure(), old(self).sched(), i).0,
            r == tick_effect(old(self).structure(), old(self).sched(), i).1,
    {
        let st = self.states[i];
        match &self.behaviors[i] {
            Behavior::Action(a) => {
                let len = a.script.len();
                let r = if len == 0 {
                    Status::Failure
                } else if st.cursor < len {
                    a.script[st.cursor]
                } else {
                    a.script[len - 1]
                };
                let cur2 = if st.cursor < len {
                    st.cursor + 1
                } else {
                    st.cursor
                };
                self.set_node_state(i, NodeState { status: r, cursor: cur2, ticks: tally_up(st.ticks), ..st });
                r
            },
            _ => st.status,
        }
    }

    /// Abort node `i`: recursively abort exactly the subtree currently
    /// `Running`, then force the node's status to `Aborted`. An aborted node
    /// is dropped from the queue instead of being ticked.
    pub fn abort(&mut self, i: usize)
        requires
            old(self).wf(),
            (i as int) < old(self).structure().len(),
        ensures
            final(self).wf(),
            final(self).structure() == old(self).structure(),
            final(self).sched() == abort_effect(old(self).structure(), old(self).sched(), i),
        decreases i, 3int,
    {
        proof {
            assert(behavior_wf(self.structure(), i as int));
        }
        let ghost bs = self.structure();
        let ghost s0 = self.sched();
        let st = self.states[i];
        match &self.behaviors[i] {
            Behavior::Action(_) => {},
            Behavior::Sequence(q) => {
                let n = q.children.len();
                let has = st.cursor < n;
                let c = if has {
                    q.children[st.cursor]
                } else {
                    0
                };
                if has {
                    if self.states[c].status == Status::Running {
                        self.abort(c);
                    }
                }
                proof {
                    assert(self.sched() == crate::semantics::abort_active_child(
                        bs, s0, bs[i as int]->Sequence_0.children@, st.cursor, i));
                }
            },
            Behavior::Selector(q) => {
                let n = q.children.len();
                let has = st.cursor < n;
                let c = if has {
                    q.children[st.cursor]
                } else {
                    0
                };
                if has {
                    if self.states[c].status == Status::Running {
                        self.abort(c);
                    }
                }
                proof {
                    assert(self.sched() == crate::semantics::abort_active_child(
                        bs, s0, bs[i as int]->Selector_0.children@, st.cursor, i));
                }
            },
            Behavior::Parallel(q) => {
                let n = q.children.len();
                let ghost ch = kids(bs[i as int]);
                let mut k: usize = 0;
                while k < n
                    invariant
                        self.wf(),
                        self.structure() == bs,
                        (i as int) < bs.len(),
                        behavior_wf(bs, i as int),
                        bs[i as int] is Parallel,
                        ch == kids(bs[i as int]),
                        n == ch.len(),
                        k <= n,
                        abort_running_list(bs, self.sched(), ch, k as int, i) == abort_running_list(bs, s0, ch, 0, i),
                    decreases n - k,
                {
                    let c = self.child_at(i, k);
                    proof {
                        assert(c < i);
                    }
                    if self.states[c].status == Status::Running {
                        self.abort(c);
                    }
                    k += 1;
                }
            },
            Behavior::Repeater(rp) => {
                let c = rp.child;
                if self.states[c].status == Status::Running {
                    self.abort(c);
                }
            },
            Behavior::Monitor(m) => {
                let cond = m.conditions;
                let act = m.actions;
                if self.states[cond].status == Status::Running {
                    self.abort(cond);
                }
                if self.states[act].status == Status::Running {
                    self.abort(act);
                }
            },
            Behavior::ActiveSelector(a) => {
                let high = a.high_priority;
                let low = a.low_priority;
                if self.states[high].status == Status::Running {
                    self.abort(high);
                }
                if self.states[low].status == Status::Running {
                    self.abort(low);
                }
            },
        }
        self.set_node_state(i, NodeState { status: Status::Aborted, ..st });
        proof {
            assert(self.sched() == abort_effect(bs, s0, i));
        }
    }

    /// Report the terminal result `r` of child `c` to its parent `p` and run
    /// the parent's completion policy.
    fn complete_node(&mut self, p: usize, c: usize, r: Status)
        requires
            old(self).wf(),
            (p as int) < old(self).structure().len(),
            r.is_terminal(),
        ensures
            final(self).wf(),
            final(self).structure() == old(self).structure(),
            final(self).sched() == complete_effect(old(self).structure(), old(self).sched(), p, c, r),
        decreases p, 2int,
    {
        proof {
            assert(behavior_wf(self.structure(), p as int));
        }
        let ghost bs = self.structure();
        let ghost s0 = self.sched();
        let st = self.states[p];
        match &self.behaviors[p] {
            Behavior::Action(_) => {},
            Behavior::Sequence(q) => {
                let n = q.children.len();
                let cur = st.cursor;
                let (cur2, ns) = if r == Status::Success {
                    if cur < n {
                        if cur + 1 < n {
                            (cur + 1, Status::Running)
                        } else {
                            (cur + 1, Status::Success)
                        }
                    } else {
                        (cur, Status::Success)
                    }
                } else {
                    (cur, r)
                };
                let ch = if ns == Status::Running {
                    q.children[cur2]
                } else {
                    0
                };
                self.set_node_state(p, NodeState { status: ns, cursor: cur2, ..st });
                if ns == Status::Running {
                    self.enqueue_fresh(Event { node: ch, parent: Some(p) });
                    self.init_node(ch);
                }
            },
            Behavior::Selector(q) => {
                let n = q.children.len();
                let cur = st.cursor;
                let (cur2, ns) = if r == Status::Success {
                    (cur, Status::Success)
                } else {
                    if cur < n {
                        if cur + 1 < n {
                            (cur + 1, Status::Running)
                        } else {
                            (cur + 1, r)
                        }
                    } else {
                        (cur, r)
                    }
                };
                let ch = if ns == Status::Running {
                    q.children[cur2]
                } else {
                    0
                };
                self.set_node_state(p, NodeState { status: ns, cursor: cur2, ..st });
                if ns == Status::Running {
                    self.enqueue_fresh(Event { node: ch, parent: Some(p) });
                    self.init_node(ch);
                }
            },
            Behavior::Parallel(q) => {
                let n = q.children.len();
                let sp = q.success_policy;
                let fp = q.failure_policy;
                let sc = if r == Status::Success && st.success_count < n - st.failure_count {
                    st.success_count + 1
                } else {
                    st.success_count
                };
                let fc = if r != Status::Success && st.failure_count < n - st.success_count {
                    st.failure_count + 1
                } else {
                    st.failure_count
                };
                let ns = resolve_parallel(sp, fp, sc, fc, n);
                self.set_node_state(p, NodeState { status: ns, success_count: sc, failure_count: fc, ..st });
                if ns != Status::Running {
                    let ghost ch = kids(bs[p as int]);
                    let ghost s1 = self.sched();
                    let mut k: usize = 0;
                    while k < n
                        invariant
                            self.wf(),
                            self.structure() == bs,
                            (p as int) < bs.len(),
                            behavior_wf(bs, p as int),
                            bs[p as int] is Parallel,
                            ch == kids(bs[p as int]),
                            n == ch.len(),
                            k <= n,
                            abort_running_list(bs, self.sched(), ch, k as int, p) == abort_running_list(bs, s1, ch, 0, p),
                        decreases n - k,
                    {
                        let c2 = self.child_at(p, k);
                        proof {
                            assert(c2 < p);
                        }
                        if self.states[c2].status == Status::Running {
                            self.abort(c2);
                        }
                        k += 1;
                    }
                }
            },
            Behavior::Repeater(rp) => {
                let child = rp.child;
                let repeat_for = rp.repeat_for;
                if r.terminal() {
                    let lp = st.current_loop;
                    let next = if lp < repeat_for {
                        lp + 1
                    } else {
                        lp
                    };
                    let (ns, again) = if next < repeat_for {
                        (Status::Running, true)
                    } else {
                        (r, false)
                    };
                    self.set_node_state(p, NodeState { status: ns, current_loop: next, ..st });
                    if again {
                        self.enqueue_fresh(Event { node: child, parent: Some(p) });
                        self.init_node(child);
                    }
                }
            },
            Behavior::Monitor(m) => {
                let cond = m.conditions;
                let act = m.actions;
                let cst = self.states[cond].status;
                if cst == Status::Success {
                    let ast = self.states[act].status;
                    if ast == Status::Invalid {
                        self.enqueue_fresh(Event { node: act, parent: Some(p) });
                        self.init_node(act);
                        self.enqueue_fresh(Event { node: cond, parent: Some(p) });
                        self.init_node(cond);
                    } else if ast == Status::Running {
                        self.enqueue_fresh(Event { node: cond, parent: Some(p) });
                        self.init_node(cond);
                    } else {
                        self.set_node_state(p, NodeState { status: ast, ..st });
                    }
                } else if cst == Status::Running {
                    self.set_node_state(p, NodeState { status: r, ..st });
                    self.abort(cond);
                } else {
                    let ast = self.states[act].status;
                    self.set_node_state(p, NodeState { status: cst, ..st });
                    if ast == Status::Running {
                        self.abort(act);
                    }
                }
            },
            Behavior::ActiveSelector(a) => {
                let high = a.high_priority;
                let low = a.low_priority;
                let hst = self.states[high].status;
                let lst = self.states[low].status;
                if hst == Status::Success {
                    self.set_node_state(p, NodeState { status: Status::Success, ..st });
                    if lst == Status::Running {
                        self.abort(low);
                    }
                } else if c == high {
                    self.complete_high_node(p, low);
                } else {
                    self.complete_low_node(p, high, low, r);
                }
            },
        }
    }

    /// The high-priority subtree of the Active Selector `p` resolved without
    /// success: start, continue or adopt the low-priority round.
    fn complete_high_node(&mut self, p: usize, low: usize)
        requires
            old(self).wf(),
            (p as int) < old(self).structure().len(),
            low < p,
            old(self).structure()[low as int] is Parallel,
        ensures
            final(self).wf(),
            final(self).structure() == old(self).structure(),
            final(self).sched() == complete_high(old(self).structure(), old(self).sched(), p, low),
        decreases p, 1int,
    {
        proof {
            assert(behavior_wf(self.structure(), low as int));
        }
        let st = self.states[p];
        let lst = self.states[low];
        let n = self.child_count(low);
        if lst.status == Status::Invalid {
            if n > 0 {
                let c0 = self.child_at(low, 0);
                self.set_node_state(low, mk_started_all(lst, 1));
                self.enqueue_fresh(Event { node: c0, parent: Some(p) });
                self.init_node(c0);
            } else {
                self.set_node_state(low, mk_started_empty(lst));
                self.set_node_state(p, NodeState { status: Status::Failure, ..st });
            }
        } else if lst.status == Status::Running {
            // a low-priority child is in flight; wait for its completion
        } else {
            self.set_node_state(p, NodeState { status: lst.status, ..st });
        }
    }

    /// A low-priority child of the Active Selector `p` resolved: feed the
    /// Parallel policy, and either continue the round — re-checking high
    /// priority and starting the next child — or adopt its outcome.
    fn complete_low_node(&mut self, p: usize, high: usize, low: usize, r: Status)
        requires
            old(self).wf(),
            (p as int) < old(self).structure().len(),
            high < p,
            low < p,
            old(self).structure()[low as int] is Parallel,
        ensures
            final(self).wf(),
            final(self).structure() == old(self).structure(),
            final(self).sched() == complete_low(old(self).structure(), old(self).sched(), p, high, low, r),
        decreases p, 1int,
    {
        proof {
            assert(behavior_wf(self.structure(), low as int));
        }
        let st = self.states[p];
        let lst = self.states[low];
        let hst = self.states[high].status;
        let n = self.child_count(low);
        let (sp, fp) = match &self.behaviors[low] {
            Behavior::Parallel(q) => (q.success_policy, q.failure_policy),
            _ => {
                proof {
                    assert(false);
                }
                (ParallelPolicy::All, ParallelPolicy::All)
            },
        };
        let sc = if r == Status::Success && lst.success_count < n - lst.failure_count {
            lst.success_count + 1
        } else {
            lst.success_count
        };
        let fc = if r != Status::Success && lst.failure_count < n - lst.success_count {
            lst.failure_count + 1
        } else {
            lst.failure_count
        };
        let ns = resolve_parallel(sp, fp, sc, fc, n);
        self.set_node_state(low, NodeState { status: ns, success_count: sc, failure_count: fc, ..lst });
        if ns == Status::Running {
            if hst != Status::Running {
                self.enqueue_fresh(Event { node: high, parent: Some(p) });
                self.init_node(high);
            }
            let lst2 = self.states[low];
            if lst2.cursor < n {
                let ch = self.child_at(low, lst2.cursor);
                self.set_node_state(low, NodeState { cursor: lst2.cursor + 1, ..lst2 });
                self.enqueue_fresh(Event { node: ch, parent: Some(p) });
                self.init_node(ch);
            }
        } else {
            self.set_node_state(p, NodeState { status: ns, ..st });
            if hst == Status::Running {
                self.abort(high);
            }
        }
    }

    /// One scheduler step. Pops the front queue entry; an entry whose node
    /// was aborted — or cleared back to `Invalid` after the entry was queued
    /// — is dropped unticked, so a node only ever runs between an initialize
    /// and its terminal result, and never reports without having been
    /// initialized. Otherwise the node is ticked: `Running` re-queues the
    /// same entry at the back, and a terminal result is reported to the
    /// entry's parent at once. Yields `false` exactly when the queue was
    /// already empty.
    pub fn step(&mut self) -> (more: bool)
        requires
            old(self).wf(),
        ensures
            final(self).wf(),
            final(self).structure() == old(self).structure(),
            final(self).sched() == step_effect(old(self).structure(), old(self).sched()).0,
            more == step_effect(old(self).structure(), old(self).sched()).1,
            more == (old(self).sched().events.len() > 0),
    {
        let ghost bs = self.structure();
        let ghost s0 = self.sched();
        if self.events.len() == 0 {
            return false;
        }
        let e = self.events.remove(0);
        proof {
            assert(sched_wf(bs, s0));
            assert(e == s0.events[0]);
            assert(event_wf(bs, s0.events[0]));
            assert(s0.events.remove(0) =~= s0.events.drop_first());
            assert forall|j: int| 0 <= j < self.events@.len() implies event_wf(bs, #[trigger] self.events@[j]) by {
                assert(self.events@[j] == s0.events[j + 1]);
                assert(event_wf(bs, s0.events[j + 1]));
            }
            assert forall|n: usize| #[trigger] count_node(self.events@, n) <= 1 by {
                assert(count_node(s0.events, n) == (if s0.events[0].node == n {
                    1nat
                } else {
                    0nat
                }) + count_node(s0.events.drop_first(), n));
                assert(count_node(s0.events, n) <= 1);
                assert(self.events@ == s0.events.drop_first());
            }
        }
        if self.states[e.node].status == Status::Aborted {
            return true;
        }
        if self.states[e.node].status == Status::Invalid {
            // a stale entry of a node that was cleared after being queued:
            // consumed without a tick, exactly like an aborted one
            return true;
        }
        let r = self.tick_node(e.node);
        if r == Status::Running {
            proof {
                // the popped entry was its node's only one, so re-queueing
                // keeps the at-most-once invariant
                assert(count_node(s0.events, e.node) >= 1nat + count_node(
                    s0.events.drop_first(),
                    e.node,
                ));
                assert(count_node(self.events@, e.node) == 0);
            }
            self.enqueue(e);
        } else if r == Status::Success || r == Status::Failure {
            match e.parent {
                Some(pp) => {
                    self.complete_node(pp, e.node, r);
                },
                None => {},
            }
        }
        true
    }

    /// Start (or restart) the tree at `root`: clear the queue, enqueue the
    /// root with no parent, and initialize it.
    pub fn start(&mut self, root: usize)
        requires
            old(self).wf(),
            (root as int) < old(self).structure().len(),
        ensures
            final(self).wf(),
            final(self).structure() == old(self).structure(),
            final(self).sched() == start_effect(old(self).structure(), old(self).sched(), root),
    {
        self.events.clear();
        proof {
            let bs = self.behaviors@;
            assert forall|n: usize| #[trigger] count_node(self.events@, n) <= 1 by {
                assert(count_node(self.events@, n) == 0);
            }
            assert(sched_wf(bs, self.sched()));
            assert(count_node(self.events@, root) == 0);
        }
        self.enqueue(Event { node: root, parent: None });
        proof {
            assert(self.sched().events =~= Seq::empty().push(Event { node: root, parent: None }));
        }
        self.init_node(root);
    }

    /// Start the tree at `root` and step the scheduler until the queue
    /// drains or `max_steps` steps have been taken, then report the root's
    /// status. A leaf that reports `Running` forever keeps the queue busy,
    /// so the host supplies the step budget.
    pub fn run(&mut self, root: usize, max_steps: usize) -> (st: Status)
        requires
            old(self).wf(),
            (root as int) < old(self).structure().len(),
        ensures
            final(self).wf(),
            final(self).structure() == old(self).structure(),
            final(self).sched() == run_effect(
                old(self).structure(),
                start_effect(old(self).structure(), old(self).sched(), root),
                max_steps as nat,
            ),
            st == final(self).sched().states[root as int].status,
    {
        self.start(root);
        let ghost bs = self.structure();
        let ghost s_start = self.sched();
        let mut fuel = max_steps;
        while fuel > 0
            invariant
                self.wf(),
                self.structure() == bs,
                (root as int) < bs.len(),
                fuel <= max_steps,
                run_effect(bs, self.sched(), fuel as nat) == run_effect(bs, s_start, max_steps as nat),
            decreases fuel,
        {
            let more = self.step();
            fuel = fuel - 1;
            if !more {
                fuel = 0;
            }
        }
        self.status_of(root)
    }
}

/// Executable counterpart of [`crate::semantics::par_resolve`], evaluating
/// the Parallel policies over the updated counters. The all-reported test is
/// phrased by subtraction, which the counter bounds keep exact.
fn resolve_parallel(sp: ParallelPolicy, fp: ParallelPolicy, sc: usize, fc: usize, n: usize) -> (st: Status)
    requires
        sc + fc <= n,
    ensures
        st == crate::semantics::par_resolve(sp, fp, sc as int, fc as int, n as int),
{
    if fp == ParallelPolicy::One && fc >= 1 {
        Status::Failure
    } else if sp == ParallelPolicy::One && sc >= 1 {
        Status::Success
    } else if sc == n - fc {
        if (fp == ParallelPolicy::OneDelayed && fc >= 1) || (fp == ParallelPolicy::All && fc == n) {
            Status::Failure
        } else if (sp == ParallelPolicy::OneDelayed && sc >= 1) || (sp == ParallelPolicy::All && sc
            == n) {
            Status::Success
        } else {
            Status::Failure
        }
    } else {
        Status::Running
    }
}

} // verus!
