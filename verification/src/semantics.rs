//! The engine's semantics, stated once at the spec level: well-formedness
//! of a tree, the pure completion policies of the node kinds, and a mirror
//! of every transition the scheduler performs. Each executable method of
//! [`crate::tree::Tree`] promises in its contract to equal its mirror here,
//! so the laws in [`crate::laws`] speak about the engine itself.

use vstd::prelude::*;
use crate::status::Status;
use crate::behavior::{Behavior, Event, NodeState, ParallelPolicy};

verus! {

/// The scheduler-visible state of a whole tree: the per-node scheduling
/// states and the pending-work queue, abstracted to sequences. The immutable
/// shape of the nodes travels separately as a `Seq<Behavior>`.
pub struct Sched {
    pub states: Seq<NodeState>,
    pub events: Seq<Event>,
}

// ---------------------------------------------------------------------------
// Well-formedness
// ---------------------------------------------------------------------------

/// Every child reference of node `i` points strictly below `i`. Trees are
/// built bottom-up, so children always stand before their parents in the
/// arena; every recursive walk can therefore use the node index as its
/// termination measure. An active selector's low-priority node must be a
/// Parallel node, since the completion policy of that node is applied to it.
pub open spec fn behavior_wf(bs: Seq<Behavior>, i: int) -> bool {
    match bs[i] {
        Behavior::Action(_) => true,
        Behavior::Sequence(q) => forall|k: int|
            0 <= k < q.children@.len() ==> (q.children@[k] as int) < i,
        Behavior::Selector(q) => forall|k: int|
            0 <= k < q.children@.len() ==> (q.children@[k] as int) < i,
        Behavior::Parallel(q) => forall|k: int|
            0 <= k < q.children@.len() ==> (q.children@[k] as int) < i,
        Behavior::Repeater(r) => (r.child as int) < i,
        Behavior::Monitor(m) => (m.conditions as int) < i && (m.actions as int) < i,
        Behavior::ActiveSelector(a) => (a.high_priority as int) < i && (a.low_priority as int) < i
            && bs[a.low_priority as int] is Parallel,
    }
}

/// The shape of the whole arena is well-formed.
pub open spec fn structure_wf(bs: Seq<Behavior>) -> bool {
    forall|i: int| 0 <= i < bs.len() ==> behavior_wf(bs, i)
}

/// Bounds on the scheduling state of node `i`: cursors stay within the child
/// list or script, a Parallel's counters never exceed its child count, and a
/// Repeater's loop counter never exceeds its repeat bound.
pub open spec fn state_wf(bs: Seq<Behavior>, st: NodeState, i: int) -> bool {
    match bs[i] {
        Behavior::Action(a) => st.cursor <= a.script@.len(),
        Behavior::Sequence(q) => st.cursor <= q.children@.len(),
        Behavior::Selector(q) => st.cursor <= q.children@.len(),
        Behavior::Parallel(q) => st.cursor <= q.children@.len()
            && st.success_count + st.failure_count <= q.children@.len(),
        Behavior::Repeater(r) => st.current_loop <= r.repeat_for,
        Behavior::Monitor(_) => true,
        Behavior::ActiveSelector(_) => true,
    }
}

/// A queue entry refers only to nodes of the arena.
pub open spec fn event_wf(bs: Seq<Behavior>, e: Event) -> bool {
    (e.node as int) < bs.len() && match e.parent {
        Some(p) => (p as int) < bs.len(),
        None => true,
    }
}

/// How many queue entries reference node `n`.
pub open spec fn count_node(es: Seq<Event>, n: usize) -> nat
    decreases es.len(),
{
    if es.len() == 0 {
        0
    } else {
        (if es[0].node == n {
            1nat
        } else {
            0nat
        }) + count_node(es.drop_first(), n)
    }
}

/// The queue with every entry of node `n` removed.
pub open spec fn drop_node(es: Seq<Event>, n: usize) -> Seq<Event>
    decreases es.len(),
{
    if es.len() == 0 {
        Seq::empty()
    } else if es[0].node == n {
        drop_node(es.drop_first(), n)
    } else {
        seq![es[0]] + drop_node(es.drop_first(), n)
    }
}

/// Pushing an entry to the back raises exactly its own node's count.
pub proof fn lemma_count_push(es: Seq<Event>, e: Event, n: usize)
    ensures
        count_node(es.push(e), n) == count_node(es, n) + (if e.node == n {
            1nat
        } else {
            0nat
        }),
    decreases es.len(),
{
    if es.len() == 0 {
        assert(es.push(e).drop_first() =~= es);
    } else {
        assert(es.push(e).drop_first() =~= es.drop_first().push(e));
        lemma_count_push(es.drop_first(), e, n);
    }
}

/// Removing a node's entries zeroes its count and leaves every other count.
pub proof fn lemma_count_drop_node(es: Seq<Event>, m: usize, n: usize)
    ensures
        count_node(drop_node(es, m), n) == (if n == m {
            0nat
        } else {
            count_node(es, n)
        }),
    decreases es.len(),
{
    if es.len() > 0 {
        lemma_count_drop_node(es.drop_first(), m, n);
        if es[0].node != m {
            assert((seq![es[0]] + drop_node(es.drop_first(), m)).drop_first() =~= drop_node(
                es.drop_first(),
                m,
            ));
        }
    }
}

/// Removal commutes with pushing an entry at the back.
pub proof fn lemma_drop_node_push(es: Seq<Event>, e: Event, m: usize)
    ensures
        drop_node(es.push(e), m) == (if e.node == m {
            drop_node(es, m)
        } else {
            drop_node(es, m).push(e)
        }),
    decreases es.len(),
{
    if es.len() == 0 {
        assert(es.push(e).drop_first() =~= es);
        assert(es.push(e)[0] == e);
        if e.node != m {
            assert(seq![e] + drop_node(es, m) =~= drop_node(es, m).push(e));
        }
    } else {
        assert(es.push(e).drop_first() =~= es.drop_first().push(e));
        lemma_drop_node_push(es.drop_first(), e, m);
        if es[0].node != m && e.node != m {
            assert(seq![es[0]] + drop_node(es.drop_first(), m).push(e) =~= (seq![es[0]]
                + drop_node(es.drop_first(), m)).push(e));
        }
    }
}

/// Removal keeps every remaining entry a valid entry.
pub proof fn lemma_drop_node_events_wf(bs: Seq<Behavior>, es: Seq<Event>, m: usize)
    requires
        forall|j: int| 0 <= j < es.len() ==> event_wf(bs, #[trigger] es[j]),
    ensures
        forall|j: int| 0 <= j < drop_node(es, m).len() ==> event_wf(bs, #[trigger] drop_node(es, m)[j]),
    decreases es.len(),
{
    if es.len() > 0 {
        assert forall|j: int| 0 <= j < es.drop_first().len() implies event_wf(
            bs,
            #[trigger] es.drop_first()[j],
        ) by {
            assert(es.drop_first()[j] == es[j + 1]);
        }
        lemma_drop_node_events_wf(bs, es.drop_first(), m);
        let rest = drop_node(es.drop_first(), m);
        if es[0].node != m {
            assert(drop_node(es, m) == seq![es[0]] + rest);
            assert forall|j: int| 0 <= j < drop_node(es, m).len() implies event_wf(
                bs,
                #[trigger] drop_node(es, m)[j],
            ) by {
                if j == 0 {
                    assert((seq![es[0]] + rest)[0] == es[0]);
                    assert(event_wf(bs, es[0]));
                } else {
                    assert((seq![es[0]] + rest)[j] == rest[j - 1]);
                    assert(event_wf(bs, rest[j - 1]));
                }
            }
        } else {
            assert(drop_node(es, m) == rest);
            assert forall|j: int| 0 <= j < drop_node(es, m).len() implies event_wf(
                bs,
                #[trigger] drop_node(es, m)[j],
            ) by {
                assert(event_wf(bs, rest[j]));
            }
        }
    }
}

/// The scheduling state matches the arena: one state per node, all states in
/// bounds, all queue entries valid, and no node queued more than once — the
/// pending-work queue holds at most one entry per node at any time.
/// (A queued node may be `Invalid` transiently: activation enqueues the
/// entry first and then initializes the node, in that order; the scheduler
/// never ticks such an entry, as [`step_effect`] shows.)
pub open spec fn sched_wf(bs: Seq<Behavior>, s: Sched) -> bool {
    &&& s.states.len() == bs.len()
    &&& forall|i: int| 0 <= i < bs.len() ==> state_wf(bs, #[trigger] s.states[i], i)
    &&& forall|j: int| 0 <= j < s.events.len() ==> event_wf(bs, #[trigger] s.events[j])
    &&& forall|n: usize| #[trigger] count_node(s.events, n) <= 1
}

// ---------------------------------------------------------------------------
// Small helpers
// ---------------------------------------------------------------------------

/// Replace the scheduling state of node `i`.
pub open spec fn set_state(s: Sched, i: int, st: NodeState) -> Sched {
    Sched { states: s.states.update(i, st), events: s.events }
}

/// Append one entry to the back of the pending-work queue.
pub open spec fn push_event(s: Sched, e: Event) -> Sched {
    Sched { states: s.states, events: s.events.push(e) }
}

/// Schedule node `e.node`: any stale entry the node still has in the queue
/// is dropped before the fresh entry goes to the back, so activating a node
/// never queues it twice.
pub open spec fn enqueue_node(s: Sched, e: Event) -> Sched {
    Sched { states: s.states, events: drop_node(s.events, e.node).push(e) }
}

/// Saturating tally increment: the observation counters never wrap.
pub open spec fn tally(n: usize) -> usize {
    if n < usize::MAX { (n + 1) as usize } else { n }
}

/// What a leaf reports on a tick at script position `cursor`: the entry at
/// the cursor, the last entry once the script is exhausted, and `Failure`
/// for the empty script.
pub open spec fn leaf_result(script: Seq<Status>, cursor: usize) -> Status {
    if script.len() == 0 {
        Status::Failure
    } else if (cursor as int) < script.len() {
        script[cursor as int]
    } else {
        script[script.len() - 1]
    }
}

/// Appending a node whose children already stand in the arena keeps the whole
/// tree well-formed; the new node starts in the never-started state.
pub proof fn lemma_push_node_wf(bs: Seq<Behavior>, s: Sched, b: Behavior)
    requires
        structure_wf(bs),
        sched_wf(bs, s),
        behavior_wf(bs.push(b), bs.len() as int),
    ensures
        structure_wf(bs.push(b)),
        sched_wf(bs.push(b), Sched { states: s.states.push(NodeState::initial()), events: s.events }),
{
    let bs2 = bs.push(b);
    let s2 = Sched { states: s.states.push(NodeState::initial()), events: s.events };
    assert forall|i: int| 0 <= i < bs2.len() implies behavior_wf(bs2, i) by {
        if i < bs.len() {
            assert(behavior_wf(bs, i));
            assert(bs2[i] == bs[i]);
            match bs[i] {
                Behavior::ActiveSelector(a) => {
                    assert(bs2[a.low_priority as int] == bs[a.low_priority as int]);
                },
                _ => {},
            }
        }
    }
    assert forall|i: int| 0 <= i < bs2.len() implies state_wf(bs2, #[trigger] s2.states[i], i) by {
        if i < bs.len() {
            assert(state_wf(bs, s.states[i], i));
            assert(bs2[i] == bs[i]);
            assert(s2.states[i] == s.states[i]);
        } else {
            assert(s2.states[i] == NodeState::initial());
        }
    }
    assert forall|j: int| 0 <= j < s2.events.len() implies event_wf(bs2, #[trigger] s2.events[j]) by {
        assert(event_wf(bs, s.events[j]));
    }
}

// ---------------------------------------------------------------------------
// Completion policies, as pure functions on scalars
// ---------------------------------------------------------------------------

/// The Sequence completion policy. Given the index `cur` of the child that
/// just reported, the child count `n` and the reported result, yields the new
/// cursor and the sequence's new status: advance on `Success` (staying
/// `Running` while a next child exists, `Success` once all are done), and
/// propagate any other result verbatim.
pub open spec fn seq_policy(cur: int, n: int, r: Status) -> (int, Status) {
    if r == Status::Success {
        if cur < n {
            if cur + 1 < n {
                (cur + 1, Status::Running)
            } else {
                (cur + 1, Status::Success)
            }
        } else {
            (cur, Status::Success)
        }
    } else {
        (cur, r)
    }
}

/// The Selector completion policy, the mirror image of [`seq_policy`]:
/// resolve `Success` immediately, advance past any other result while a next
/// child exists, and adopt the last child's result once none does.
pub open spec fn sel_policy(cur: int, n: int, r: Status) -> (int, Status) {
    if r == Status::Success {
        (cur, Status::Success)
    } else {
        if cur < n {
            if cur + 1 < n {
                (cur + 1, Status::Running)
            } else {
                (cur + 1, r)
            }
        } else {
            (cur, r)
        }
    }
}

/// The Parallel resolution rule over the updated counters, in fixed priority:
/// an immediate failure under failure policy `One`, an immediate success
/// under success policy `One`, and once every child has reported, the delayed
/// policies with `Failure` as the deterministic fallback for inconsistent
/// configurations.
pub open spec fn par_resolve(sp: ParallelPolicy, fp: ParallelPolicy, sc: int, fc: int, n: int) -> Status {
    if fp == ParallelPolicy::One && fc >= 1 {
        Status::Failure
    } else if sp == ParallelPolicy::One && sc >= 1 {
        Status::Success
    } else if sc + fc == n {
        if (fp == ParallelPolicy::OneDelayed && fc >= 1) || (fp == ParallelPolicy::All && fc == n) {
            Status::Failure
        } else if (sp == ParallelPolicy::OneDelayed && sc >= 1) || (sp == ParallelPolicy::All && sc == n) {
            Status::Success
        } else {
            Status::Failure
        }
    } else {
        Status::Running
    }
}

/// Counter update of a Parallel on one reported child result: `Success`
/// feeds the success counter, any other terminal result the failure counter.
/// Counting stops once every child is accounted for, so the counters' sum
/// never exceeds the child count — a bound the once-per-child report
/// discipline of the scheduler never reaches anyway.
pub open spec fn par_count(sc: int, fc: int, n: int, r: Status) -> (int, int) {
    if r == Status::Success {
        (if sc + fc < n { sc + 1 } else { sc }, fc)
    } else {
        (sc, if sc + fc < n { fc + 1 } else { fc })
    }
}

/// The Repeater completion policy: on a terminal child result, advance the
/// loop counter; the yielded flag says whether the child is re-initialized
/// (staying `Running`) or the child's result is adopted.
pub open spec fn rep_policy(current_loop: int, repeat_for: int, r: Status) -> (int, Status, bool) {
    let next = if current_loop < repeat_for { current_loop + 1 } else { current_loop };
    if next < repeat_for {
        (next, Status::Running, true)
    } else {
        (next, r, false)
    }
}

// ---------------------------------------------------------------------------
// State shapes written by initialize
// ---------------------------------------------------------------------------

/// The state of a node that has just been started and has work in progress.
pub open spec fn started(st: NodeState) -> NodeState {
    NodeState {
        status: Status::Running,
        cursor: 0,
        success_count: 0,
        failure_count: 0,
        current_loop: 0,
        activations: tally(st.activations),
        ticks: st.ticks,
    }
}

/// The state of a leaf that was just started: as [`started`], but the
/// script position is kept. The script models the leaf's own consumable
/// workload — the stream of results its work will report — which, like the
/// captured state of a host-supplied action, survives re-initialization;
/// only the scheduler's bookkeeping is reset.
pub open spec fn started_leaf(st: NodeState) -> NodeState {
    NodeState { cursor: st.cursor, ..started(st) }
}

/// The state of a composite that was started with no children and resolved
/// to `Failure` at once.
pub open spec fn started_empty(st: NodeState) -> NodeState {
    NodeState { status: Status::Failure, ..started(st) }
}

/// The state of a Parallel that was started and has activated all `n` of its
/// children; the cursor records that none is left to start.
pub open spec fn started_all(st: NodeState, n: usize) -> NodeState {
    NodeState { cursor: n, ..started(st) }
}

/// A node's bookkeeping put back to the never-started state without
/// counting an activation.
pub open spec fn cleared(st: NodeState) -> NodeState {
    NodeState {
        status: Status::Invalid,
        cursor: 0,
        success_count: 0,
        failure_count: 0,
        current_loop: 0,
        activations: st.activations,
        ticks: st.ticks,
    }
}

/// [`cleared`], respecting the node's kind: a leaf's cursor is its position
/// in its own workload script, which — exactly as under [`started_leaf`] —
/// survives; every other field is scheduler bookkeeping and is reset.
pub open spec fn cleared_for(b: Behavior, st: NodeState) -> NodeState {
    if b is Action {
        NodeState { cursor: st.cursor, ..cleared(st) }
    } else {
        cleared(st)
    }
}

/// Effect of clearing node `x`: its state goes back to never-started and any
/// queue entry it still had is dropped — a cleared node is no longer
/// scheduled. Initializing a Monitor or an Active Selector clears the node
/// anchoring its passive subtree this way, so that a restarted tree carries
/// no stale state and no stale queue entry; the descendants need no
/// clearing, since each is initialized when it is activated.
pub open spec fn clear_effect(bs: Seq<Behavior>, s: Sched, x: usize) -> Sched {
    Sched {
        states: s.states.update(x as int, cleared_for(bs[x as int], s.states[x as int])),
        events: drop_node(s.events, x),
    }
}

/// The ordered child list of a composite node; empty for node kinds that do
/// not hold one.
pub open spec fn kids(b: Behavior) -> Seq<usize> {
    match b {
        Behavior::Sequence(q) => q.children@,
        Behavior::Selector(q) => q.children@,
        Behavior::Parallel(q) => q.children@,
        _ => Seq::empty(),
    }
}

// ---------------------------------------------------------------------------
// The engine's transitions, as spec-level mirrors
// ---------------------------------------------------------------------------

/// Effect of `initialize` on node `i`: reset the node's own state, decide its
/// immediate status, and activate (enqueue and initialize) whichever children
/// must begin running now. The recursion is guarded by `child < i`, which
/// well-formed trees always satisfy.
pub open spec fn init_effect(bs: Seq<Behavior>, s: Sched, i: usize) -> Sched
    decreases i, 2int, 0int,
{
    let st = s.states[i as int];
    match bs[i as int] {
        Behavior::Action(_) => set_state(s, i as int, started_leaf(st)),
        Behavior::Sequence(q) => init_first(bs, s, i, q.children@),
        Behavior::Selector(q) => init_first(bs, s, i, q.children@),
        Behavior::Parallel(q) => {
            if q.children@.len() > 0 {
                let s1 = set_state(s, i as int, started_all(st, q.children.len()));
                activate_all(bs, s1, q.children@, 0, i)
            } else {
                set_state(s, i as int, started_empty(st))
            }
        },
        Behavior::Repeater(rp) => {
            let s1 = set_state(s, i as int, started(st));
            let s2 = enqueue_node(s1, Event { node: rp.child, parent: Some(i) });
            if rp.child < i {
                init_effect(bs, s2, rp.child)
            } else {
                s2
            }
        },
        Behavior::Monitor(m) => {
            let s1 = set_state(s, i as int, started(st));
            let s2 = clear_effect(bs, s1, m.actions);
            let s3 = enqueue_node(s2, Event { node: m.conditions, parent: Some(i) });
            if m.conditions < i {
                init_effect(bs, s3, m.conditions)
            } else {
                s3
            }
        },
        Behavior::ActiveSelector(a) => {
            let s1 = set_state(s, i as int, started(st));
            let s2 = clear_effect(bs, s1, a.low_priority);
            let s3 = enqueue_node(s2, Event { node: a.high_priority, parent: Some(i) });
            if a.high_priority < i {
                init_effect(bs, s3, a.high_priority)
            } else {
                s3
            }
        },
    }
}

/// Effect of initializing a Sequence or a Selector: reset the cursor and
/// activate the first child, or resolve `Failure` at once when there is none.
pub open spec fn init_first(bs: Seq<Behavior>, s: Sched, i: usize, ch: Seq<usize>) -> Sched
    decreases i, 1int, 0int,
{
    let st = s.states[i as int];
    if ch.len() > 0 {
        let s1 = set_state(s, i as int, started(st));
        let c = ch[0];
        let s2 = enqueue_node(s1, Event { node: c, parent: Some(i) });
        if c < i {
            init_effect(bs, s2, c)
        } else {
            s2
        }
    } else {
        set_state(s, i as int, started_empty(st))
    }
}

/// Effect of activating the children `ch[k..]` of the Parallel node `i`, in
/// order: each is enqueued and then initialized.
pub open spec fn activate_all(bs: Seq<Behavior>, s: Sched, ch: Seq<usize>, k: int, i: usize) -> Sched
    decreases i, 1int, ch.len() - k,
{
    if 0 <= k < ch.len() {
        let c = ch[k];
        let s1 = enqueue_node(s, Event { node: c, parent: Some(i) });
        let s2 = if c < i {
            init_effect(bs, s1, c)
        } else {
            s1
        };
        activate_all(bs, s2, ch, k + 1, i)
    } else {
        s
    }
}

/// Effect of `abort` on node `i`: recursively abort exactly the subtree
/// currently `Running` — never a child that has not started or has already
/// resolved — then force the node's own status to `Aborted`.
pub open spec fn abort_effect(bs: Seq<Behavior>, s: Sched, i: usize) -> Sched
    decreases i, 2int, 0int,
{
    let st = s.states[i as int];
    match bs[i as int] {
        Behavior::Action(_) => set_state(s, i as int, NodeState { status: Status::Aborted, ..st }),
        Behavior::Sequence(q) => {
            let s1 = abort_active_child(bs, s, q.children@, st.cursor, i);
            set_state(s1, i as int, NodeState { status: Status::Aborted, ..st })
        },
        Behavior::Selector(q) => {
            let s1 = abort_active_child(bs, s, q.children@, st.cursor, i);
            set_state(s1, i as int, NodeState { status: Status::Aborted, ..st })
        },
        Behavior::Parallel(q) => {
            let s1 = abort_running_list(bs, s, q.children@, 0, i);
            set_state(s1, i as int, NodeState { status: Status::Aborted, ..st })
        },
        Behavior::Repeater(rp) => {
            let s1 = if s.states[rp.child as int].status == Status::Running && rp.child < i {
                abort_effect(bs, s, rp.child)
            } else {
                s
            };
            set_state(s1, i as int, NodeState { status: Status::Aborted, ..st })
        },
        Behavior::Monitor(m) => {
            let s1 = if s.states[m.conditions as int].status == Status::Running && m.conditions < i {
                abort_effect(bs, s, m.conditions)
            } else {
                s
            };
            let s2 = if s1.states[m.actions as int].status == Status::Running && m.actions < i {
                abort_effect(bs, s1, m.actions)
            } else {
                s1
            };
            set_state(s2, i as int, NodeState { status: Status::Aborted, ..st })
        },
        Behavior::ActiveSelector(a) => {
            let s1 = if s.states[a.high_priority as int].status == Status::Running && a.high_priority < i {
                abort_effect(bs, s, a.high_priority)
            } else {
                s
            };
            let s2 = if s1.states[a.low_priority as int].status == Status::Running && a.low_priority < i {
                abort_effect(bs, s1, a.low_priority)
            } else {
                s1
            };
            set_state(s2, i as int, NodeState { status: Status::Aborted, ..st })
        },
    }
}

/// Effect of aborting the active child (the one at the cursor) of a Sequence
/// or Selector, if it is running.
pub open spec fn abort_active_child(bs: Seq<Behavior>, s: Sched, ch: Seq<usize>, cur: usize, i: usize) -> Sched
    decreases i, 1int, 0int,
{
    if (cur as int) < ch.len() {
        let c = ch[cur as int];
        if s.states[c as int].status == Status::Running && c < i {
            abort_effect(bs, s, c)
        } else {
            s
        }
    } else {
        s
    }
}

/// Effect of aborting every still-running child in `ch[k..]`, in order.
pub open spec fn abort_running_list(bs: Seq<Behavior>, s: Sched, ch: Seq<usize>, k: int, i: usize) -> Sched
    decreases i, 1int, ch.len() - k,
{
    if 0 <= k < ch.len() {
        let c = ch[k];
        let s1 = if s.states[c as int].status == Status::Running && c < i {
            abort_effect(bs, s, c)
        } else {
            s
        };
        abort_running_list(bs, s1, ch, k + 1, i)
    } else {
        s
    }
}

/// Effect of `tick` on node `i`, and the status it reports. Only a leaf does
/// work on a tick — it reads its script and advances — while a composite
/// simply reports its cached status; a composite's real work happens in
/// [`complete_effect`].
pub open spec fn tick_effect(bs: Seq<Behavior>, s: Sched, i: usize) -> (Sched, Status) {
    let st = s.states[i as int];
    match bs[i as int] {
        Behavior::Action(a) => {
            let r = leaf_result(a.script@, st.cursor);
            let cur2 = if (st.cursor as int) < a.script@.len() {
                (st.cursor + 1) as usize
            } else {
                st.cursor
            };
            (
                set_state(
                    s,
                    i as int,
                    NodeState { status: r, cursor: cur2, ticks: tally(st.ticks), ..st },
                ),
                r,
            )
        },
        _ => (s, st.status),
    }
}

/// Effect of reporting the terminal result `r` of child `c` to its parent
/// `p`: the node-kind-specific completion policy. This is where all of the
/// control-flow logic of the engine lives.
pub open spec fn complete_effect(bs: Seq<Behavior>, s: Sched, p: usize, c: usize, r: Status) -> Sched
    decreases p, 3int, 0int,
{
    let st = s.states[p as int];
    match bs[p as int] {
        Behavior::Action(_) => s,
        Behavior::Sequence(q) => {
            let n = q.children@.len() as int;
            let pol = seq_policy(st.cursor as int, n, r);
            let s1 = set_state(s, p as int, NodeState { status: pol.1, cursor: pol.0 as usize, ..st });
            if pol.1 == Status::Running {
                let ch = q.children@[pol.0];
                let s2 = enqueue_node(s1, Event { node: ch, parent: Some(p) });
                if ch < p {
                    init_effect(bs, s2, ch)
                } else {
                    s2
                }
            } else {
                s1
            }
        },
        Behavior::Selector(q) => {
            let n = q.children@.len() as int;
            let pol = sel_policy(st.cursor as int, n, r);
            let s1 = set_state(s, p as int, NodeState { status: pol.1, cursor: pol.0 as usize, ..st });
            if pol.1 == Status::Running {
                let ch = q.children@[pol.0];
                let s2 = enqueue_node(s1, Event { node: ch, parent: Some(p) });
                if ch < p {
                    init_effect(bs, s2, ch)
                } else {
                    s2
                }
            } else {
                s1
            }
        },
        Behavior::Parallel(q) => {
            let n = q.children@.len() as int;
            let cnt = par_count(st.success_count as int, st.failure_count as int, n, r);
            let ns = par_resolve(q.success_policy, q.failure_policy, cnt.0, cnt.1, n);
            let s1 = set_state(
                s,
                p as int,
                NodeState { status: ns, success_count: cnt.0 as usize, failure_count: cnt.1 as usize, ..st },
            );
            if ns != Status::Running {
                abort_running_list(bs, s1, q.children@, 0, p)
            } else {
                s1
            }
        },
        Behavior::Repeater(rp) => {
            if r.is_terminal() {
                let pol = rep_policy(st.current_loop as int, rp.repeat_for as int, r);
                let s1 = set_state(s, p as int, NodeState { status: pol.1, current_loop: pol.0 as usize, ..st });
                if pol.2 {
                    let s2 = enqueue_node(s1, Event { node: rp.child, parent: Some(p) });
                    if rp.child < p {
                        init_effect(bs, s2, rp.child)
                    } else {
                        s2
                    }
                } else {
                    s1
                }
            } else {
                s
            }
        },
        Behavior::Monitor(m) => {
            let cst = s.states[m.conditions as int].status;
            if cst == Status::Success {
                let ast = s.states[m.actions as int].status;
                if ast == Status::Invalid {
                    // the guard held for the first time: start the actions,
                    // and re-arm the guard so it keeps being checked
                    let s1 = enqueue_node(s, Event { node: m.actions, parent: Some(p) });
                    let s2 = if m.actions < p {
                        init_effect(bs, s1, m.actions)
                    } else {
                        s1
                    };
                    let s3 = enqueue_node(s2, Event { node: m.conditions, parent: Some(p) });
                    if m.conditions < p {
                        init_effect(bs, s3, m.conditions)
                    } else {
                        s3
                    }
                } else if ast == Status::Running {
                    // the guard held again while the actions run on: re-arm it
                    let s1 = enqueue_node(s, Event { node: m.conditions, parent: Some(p) });
                    if m.conditions < p {
                        init_effect(bs, s1, m.conditions)
                    } else {
                        s1
                    }
                } else {
                    // the actions resolved under a holding guard: adopt their result
                    set_state(s, p as int, NodeState { status: ast, ..st })
                }
            } else if cst == Status::Running {
                // the actions resolved while a guard re-check was still in
                // flight: adopt the reported result and abort the pending guard
                let s1 = set_state(s, p as int, NodeState { status: r, ..st });
                if m.conditions < p {
                    abort_effect(bs, s1, m.conditions)
                } else {
                    s1
                }
            } else {
                // the guard no longer holds: adopt its result and abort the
                // actions if they are still running
                let s1 = set_state(s, p as int, NodeState { status: cst, ..st });
                if s.states[m.actions as int].status == Status::Running && m.actions < p {
                    abort_effect(bs, s1, m.actions)
                } else {
                    s1
                }
            }
        },
        Behavior::ActiveSelector(a) => {
            let hst = s.states[a.high_priority as int].status;
            if hst == Status::Success {
                // high priority wins; a still-running low-priority round is cut short
                let s1 = set_state(s, p as int, NodeState { status: Status::Success, ..st });
                if s.states[a.low_priority as int].status == Status::Running && a.low_priority < p {
                    abort_effect(bs, s1, a.low_priority)
                } else {
                    s1
                }
            } else if c == a.high_priority {
                complete_high(bs, s, p, a.low_priority)
            } else {
                complete_low(bs, s, p, a.high_priority, a.low_priority, r)
            }
        },
    }
}

/// Effect on an Active Selector of its high-priority subtree resolving
/// without success: start the low-priority round if it has not begun, wait if
/// one of its children is in flight, and adopt its result once it resolved.
pub open spec fn complete_high(bs: Seq<Behavior>, s: Sched, p: usize, low: usize) -> Sched
    decreases p, 2int, 0int,
{
    let st = s.states[p as int];
    let lst = s.states[low as int];
    match bs[low as int] {
        Behavior::Parallel(q) => {
            if lst.status == Status::Invalid {
                if q.children@.len() > 0 {
                    let s1 = set_state(s, low as int, started_all(lst, 1));
                    let ch = q.children@[0];
                    let s2 = enqueue_node(s1, Event { node: ch, parent: Some(p) });
                    if ch < p {
                        init_effect(bs, s2, ch)
                    } else {
                        s2
                    }
                } else {
                    let s1 = set_state(s, low as int, started_empty(lst));
                    set_state(s1, p as int, NodeState { status: Status::Failure, ..st })
                }
            } else if lst.status == Status::Running {
                s
            } else {
                set_state(s, p as int, NodeState { status: lst.status, ..st })
            }
        },
        _ => s,
    }
}

/// Effect on an Active Selector of one of its low-priority children
/// resolving: feed the Parallel completion policy; while the round stays
/// open, re-check high priority (unless it is already in flight) and start
/// the next not-yet-started low-priority child; once the round resolves,
/// adopt its result and abort a still-running high-priority re-check.
pub open spec fn complete_low(bs: Seq<Behavior>, s: Sched, p: usize, high: usize, low: usize, r: Status) -> Sched
    decreases p, 2int, 0int,
{
    let st = s.states[p as int];
    match bs[low as int] {
        Behavior::Parallel(q) => {
            let lst = s.states[low as int];
            let n = q.children@.len() as int;
            let cnt = par_count(lst.success_count as int, lst.failure_count as int, n, r);
            let ns = par_resolve(q.success_policy, q.failure_policy, cnt.0, cnt.1, n);
            let s1 = set_state(
                s,
                low as int,
                NodeState { status: ns, success_count: cnt.0 as usize, failure_count: cnt.1 as usize, ..lst },
            );
            if ns == Status::Running {
                let s2 = if s.states[high as int].status != Status::Running {
                    let sh = enqueue_node(s1, Event { node: high, parent: Some(p) });
                    if high < p {
                        init_effect(bs, sh, high)
                    } else {
                        sh
                    }
                } else {
                    s1
                };
                let lst2 = s2.states[low as int];
                if (lst2.cursor as int) < n {
                    let ch = q.children@[lst2.cursor as int];
                    let s3 = set_state(s2, low as int, NodeState { cursor: (lst2.cursor + 1) as usize, ..lst2 });
                    let s4 = enqueue_node(s3, Event { node: ch, parent: Some(p) });
                    if ch < p {
                        init_effect(bs, s4, ch)
                    } else {
                        s4
                    }
                } else {
                    s2
                }
            } else {
                let s2 = set_state(s1, p as int, NodeState { status: ns, ..st });
                if s.states[high as int].status == Status::Running && high < p {
                    abort_effect(bs, s2, high)
                } else {
                    s2
                }
            }
        },
        _ => s,
    }
}

/// Effect of one scheduler step, and whether there was work: pop the front
/// entry; drop it if the node was aborted — or cleared back to never-started
/// — while queued; otherwise tick the node, re-queueing it while it reports
/// `Running` and reporting a terminal result to the entry's parent. The two
/// drop branches keep a node from ever being ticked outside an activation:
/// whatever runs was initialized first.
pub open spec fn step_effect(bs: Seq<Behavior>, s: Sched) -> (Sched, bool) {
    if s.events.len() == 0 {
        (s, false)
    } else {
        let e = s.events[0];
        let s1 = Sched { states: s.states, events: s.events.drop_first() };
        if bs.len() <= e.node as int {
            (s1, true)
        } else if s1.states[e.node as int].status == Status::Aborted {
            (s1, true)
        } else if s1.states[e.node as int].status == Status::Invalid {
            // a stale entry of a node that was cleared after being queued:
            // consumed without a tick, exactly like an aborted one
            (s1, true)
        } else {
            let t = tick_effect(bs, s1, e.node);
            if t.1 == Status::Running {
                (push_event(t.0, e), true)
            } else if t.1 == Status::Success || t.1 == Status::Failure {
                match e.parent {
                    Some(pp) => if (pp as int) < bs.len() {
                        (complete_effect(bs, t.0, pp, e.node, t.1), true)
                    } else {
                        (t.0, true)
                    },
                    None => (t.0, true),
                }
            } else {
                (t.0, true)
            }
        }
    }
}

/// Effect of `start`: clear the queue, enqueue the root without a parent, and
/// initialize it.
pub open spec fn start_effect(bs: Seq<Behavior>, s: Sched, root: usize) -> Sched {
    let s1 = Sched { states: s.states, events: Seq::empty().push(Event { node: root, parent: None }) };
    if (root as int) < bs.len() {
        init_effect(bs, s1, root)
    } else {
        s1
    }
}

/// Effect of stepping the scheduler until the queue drains or the step
/// budget runs out.
pub open spec fn run_effect(bs: Seq<Behavior>, s: Sched, fuel: nat) -> Sched
    decreases fuel,
{
    if fuel == 0 {
        s
    } else {
        let t = step_effect(bs, s);
        if t.1 {
            run_effect(bs, t.0, (fuel - 1) as nat)
        } else {
            t.0
        }
    }
}

} // verus!
