//! The engine's laws, proved against the spec-level mirrors in
//! [`crate::semantics`]:
//!
//! - per-kind transition theorems tying one completion report on a node to
//!   its pure completion policy;
//! - run laws folding a policy over the results a node's children report,
//!   which pin a Sequence to the first non-success, a Selector to the first
//!   success, a Parallel under failure policy `One` to the first failure,
//!   and a Repeater to its child's last result;
//! - the restart law: `start` resets every node its initialization chain
//!   reaches to a state determined by the tree's structure alone.

use vstd::prelude::*;
use crate::status::Status;
use crate::behavior::{Behavior, NodeState, ParallelPolicy};
use crate::behavior::Event;
use crate::semantics::{
    activate_all, enqueue_node, init_effect, par_count, par_resolve, rep_policy,
    sel_policy, seq_policy, set_state, start_effect, started, started_all, Sched,
};

verus! {

// ---------------------------------------------------------------------------
// Folding a completion policy over the results its children report
// ---------------------------------------------------------------------------

/// Every entry is a completed child's result.
pub open spec fn all_terminal(rs: Seq<Status>) -> bool {
    forall|j: int| 0 <= j < rs.len() ==> (#[trigger] rs[j]).is_terminal()
}

/// The index of the first entry that is not `Success`, or the length when
/// every entry is.
pub open spec fn first_non_success(rs: Seq<Status>) -> int
    decreases rs.len(),
{
    if rs.len() == 0 {
        0
    } else if rs[0] != Status::Success {
        0
    } else {
        1 + first_non_success(rs.drop_first())
    }
}

/// The index of the first `Success` entry, or the length when there is none.
pub open spec fn first_success(rs: Seq<Status>) -> int
    decreases rs.len(),
{
    if rs.len() == 0 {
        0
    } else if rs[0] == Status::Success {
        0
    } else {
        1 + first_success(rs.drop_first())
    }
}

/// Iterate the Sequence completion policy from cursor `cur` over the results
/// its successive active children report, stopping as soon as the sequence
/// resolves; yields the final cursor and status.
pub open spec fn seq_policy_run(cur: int, n: int, rs: Seq<Status>) -> (int, Status)
    decreases rs.len(),
{
    if rs.len() == 0 {
        (cur, Status::Running)
    } else {
        let t = seq_policy(cur, n, rs[0]);
        if t.1 == Status::Running {
            seq_policy_run(t.0, n, rs.drop_first())
        } else {
            t
        }
    }
}

/// Iterate the Selector completion policy, as [`seq_policy_run`] does for
/// the Sequence policy.
pub open spec fn sel_policy_run(cur: int, n: int, rs: Seq<Status>) -> (int, Status)
    decreases rs.len(),
{
    if rs.len() == 0 {
        (cur, Status::Running)
    } else {
        let t = sel_policy(cur, n, rs[0]);
        if t.1 == Status::Running {
            sel_policy_run(t.0, n, rs.drop_first())
        } else {
            t
        }
    }
}

proof fn lemma_sequence_run_from(cur: int, n: int, rs: Seq<Status>)
    requires
        0 <= cur,
        cur + rs.len() == n,
        all_terminal(rs),
    ensures
        ({
            let k = first_non_success(rs);
            &&& (k < rs.len() ==> seq_policy_run(cur, n, rs) == (cur + k, rs[k]))
            &&& (k == rs.len() && rs.len() > 0 ==> seq_policy_run(cur, n, rs) == (
                n as int,
                Status::Success,
            ))
            &&& 0 <= k <= rs.len()
        }),
    decreases rs.len(),
{
    if rs.len() > 0 {
        let tail = rs.drop_first();
        assert(all_terminal(tail)) by {
            assert forall|j: int| 0 <= j < tail.len() implies (#[trigger] tail[j]).is_terminal() by {
                assert(tail[j] == rs[j + 1]);
            }
        }
        lemma_sequence_run_from(cur + 1, n, tail);
        let t = seq_policy(cur, n, rs[0]);
        if rs[0] == Status::Success {
            let k2 = first_non_success(tail);
            assert(first_non_success(rs) == 1 + k2);
            if cur + 1 < n {
                assert(t == (cur + 1, Status::Running));
                assert(seq_policy_run(cur, n, rs) == seq_policy_run(cur + 1, n, tail));
                if k2 < tail.len() {
                    assert(tail[k2] == rs[k2 + 1]);
                }
            } else {
                assert(rs.len() == 1);
                assert(seq_policy_run(cur, n, rs) == t);
            }
        } else {
            assert(rs[0].is_terminal());
            assert(t == (cur, rs[0]));
            assert(first_non_success(rs) == 0);
            assert(seq_policy_run(cur, n, rs) == t);
        }
    }
}

proof fn lemma_selector_run_from(cur: int, n: int, rs: Seq<Status>)
    requires
        0 <= cur,
        cur + rs.len() == n,
        all_terminal(rs),
    ensures
        ({
            let k = first_success(rs);
            &&& (k < rs.len() ==> sel_policy_run(cur, n, rs) == (cur + k, Status::Success))
            &&& (k == rs.len() && rs.len() > 0 ==> sel_policy_run(cur, n, rs) == (
                n as int,
                rs[rs.len() - 1],
            ))
            &&& 0 <= k <= rs.len()
        }),
    decreases rs.len(),
{
    if rs.len() > 0 {
        let tail = rs.drop_first();
        assert(all_terminal(tail)) by {
            assert forall|j: int| 0 <= j < tail.len() implies (#[trigger] tail[j]).is_terminal() by {
                assert(tail[j] == rs[j + 1]);
            }
        }
        lemma_selector_run_from(cur + 1, n, tail);
        let t = sel_policy(cur, n, rs[0]);
        if rs[0] == Status::Success {
            assert(first_success(rs) == 0);
            assert(sel_policy_run(cur, n, rs) == t);
        } else {
            assert(rs[0].is_terminal());
            let k2 = first_success(tail);
            assert(first_success(rs) == 1 + k2);
            if cur + 1 < n {
                assert(t == (cur + 1, Status::Running));
                assert(sel_policy_run(cur, n, rs) == sel_policy_run(cur + 1, n, tail));
                if k2 < tail.len() {
                    assert(tail[k2] == rs[k2 + 1]);
                } else if tail.len() > 0 {
                    assert(tail[tail.len() - 1] == rs[rs.len() - 1]);
                }
            } else {
                assert(rs.len() == 1);
                assert(t == (cur + 1, rs[0]));
                assert(sel_policy_run(cur, n, rs) == t);
            }
        }
    }
}

/// For a Sequence of `n` children whose successive active children report
/// the terminal results `rs`, iterating the completion policy from a fresh
/// activation resolves to the first non-`Success` result — with the cursor
/// left at its index `k`, so exactly `k + 1` children were ever activated —
/// or to `Success` with the cursor at `n` when every child succeeded.
pub proof fn lemma_sequence_completions(n: int, rs: Seq<Status>)
    requires
        n >= 1,
        rs.len() == n,
        all_terminal(rs),
    ensures
        ({
            let k = first_non_success(rs);
            &&& 0 <= k <= n
            &&& (k < n ==> seq_policy_run(0, n, rs) == (k, rs[k]))
            &&& (k == n ==> seq_policy_run(0, n, rs) == (n, Status::Success))
        }),
{
    lemma_sequence_run_from(0, n, rs);
}

/// For a Selector of `n` children reporting the terminal results `rs`,
/// iterating the completion policy from a fresh activation resolves to
/// `Success` at the first succeeding child — the cursor stops at its index
/// `k`, so exactly `k + 1` children were ever activated — or to the last
/// child's result with the cursor at `n` when none succeeds.
pub proof fn lemma_selector_completions(n: int, rs: Seq<Status>)
    requires
        n >= 1,
        rs.len() == n,
        all_terminal(rs),
    ensures
        ({
            let k = first_success(rs);
            &&& 0 <= k <= n
            &&& (k < n ==> sel_policy_run(0, n, rs) == (k, Status::Success))
            &&& (k == n ==> sel_policy_run(0, n, rs) == (n, rs[n - 1]))
        }),
{
    lemma_selector_run_from(0, n, rs);
}

/// The policy core of the Parallel failure law: under failure policy `One`,
/// the resolution rule yields `Failure` as soon as the counters register one
/// non-`Success` terminal report, whatever the success policy and the counts
/// accumulated so far.
pub proof fn lemma_parallel_one_failure(sp: ParallelPolicy, sc: int, fc: int, n: int, r: Status)
    requires
        n >= 1,
        0 <= sc,
        0 <= fc,
        sc + fc < n,
        r.is_terminal(),
        r != Status::Success,
    ensures
        ({
            let cnt = par_count(sc, fc, n, r);
            par_resolve(sp, ParallelPolicy::One, cnt.0, cnt.1, n) == Status::Failure
        }),
{
}

/// Iterate the Repeater completion policy over the terminal results its
/// child reports on successive runs; yields the final loop counter, the
/// final status, and how many times the child was re-initialized.
pub open spec fn rep_policy_run(lp: int, repeat_for: int, rs: Seq<Status>) -> (int, Status, int)
    decreases rs.len(),
{
    if rs.len() == 0 {
        (lp, Status::Running, 0)
    } else {
        let t = rep_policy(lp, repeat_for, rs[0]);
        if t.2 {
            let rec = rep_policy_run(t.0, repeat_for, rs.drop_first());
            (rec.0, rec.1, 1 + rec.2)
        } else {
            (t.0, t.1, 0)
        }
    }
}

proof fn lemma_repeater_run_from(lp: int, repeat_for: int, rs: Seq<Status>)
    requires
        0 <= lp,
        lp + rs.len() == repeat_for,
        rs.len() >= 1,
        all_terminal(rs),
    ensures
        rep_policy_run(lp, repeat_for, rs) == (repeat_for, rs[rs.len() - 1], rs.len() - 1),
    decreases rs.len(),
{
    if rs.len() > 1 {
        lemma_repeater_run_from(lp + 1, repeat_for, rs.drop_first());
        assert(rs.drop_first()[rs.drop_first().len() - 1] == rs[rs.len() - 1]);
    }
}

/// A Repeater with bound `repeat_for` whose child completes `repeat_for`
/// times with the terminal results `rs` re-initializes the child exactly
/// `repeat_for - 1` times — so with the activation at its own initialize the
/// child is activated exactly `repeat_for` times — and adopts the child's
/// last result.
pub proof fn lemma_repeater_completions(repeat_for: int, rs: Seq<Status>)
    requires
        repeat_for >= 1,
        rs.len() == repeat_for,
        all_terminal(rs),
    ensures
        rep_policy_run(0, repeat_for, rs) == (repeat_for, rs[repeat_for - 1], repeat_for - 1),
{
    lemma_repeater_run_from(0, repeat_for, rs);
}

// ---------------------------------------------------------------------------
// Restarting a tree resets the nodes its initialization reaches
// ---------------------------------------------------------------------------

/// The set of nodes whose scheduling state initializing node `i` writes:
/// the node itself, the children it activates, those children's own touched
/// sets, and the passive node a Monitor or an Active Selector clears.
pub open spec fn touched(bs: Seq<Behavior>, i: usize) -> Set<usize>
    decreases i, 1int, 0int,
{
    let own = Set::empty().insert(i);
    match bs[i as int] {
        Behavior::Action(_) => own,
        Behavior::Sequence(q) => if q.children@.len() > 0 {
            let c = q.children@[0];
            own.union(if c < i { touched(bs, c) } else { Set::empty() })
        } else {
            own
        },
        Behavior::Selector(q) => if q.children@.len() > 0 {
            let c = q.children@[0];
            own.union(if c < i { touched(bs, c) } else { Set::empty() })
        } else {
            own
        },
        Behavior::Parallel(q) => if q.children@.len() > 0 {
            own.union(touched_list(bs, q.children@, 0, i))
        } else {
            own
        },
        Behavior::Repeater(rp) => own.union(
            if rp.child < i { touched(bs, rp.child) } else { Set::empty() },
        ),
        Behavior::Monitor(m) => own.insert(m.actions).union(
            if m.conditions < i { touched(bs, m.conditions) } else { Set::empty() },
        ),
        Behavior::ActiveSelector(a) => own.insert(a.low_priority).union(
            if a.high_priority < i { touched(bs, a.high_priority) } else { Set::empty() },
        ),
    }
}

/// The union of the touched sets of the children `ch[k..]` of node `i`.
pub open spec fn touched_list(bs: Seq<Behavior>, ch: Seq<usize>, k: int, i: usize) -> Set<usize>
    decreases i, 0int, ch.len() - k,
{
    if 0 <= k < ch.len() {
        (if ch[k] < i { touched(bs, ch[k]) } else { Set::empty() }).union(
            touched_list(bs, ch, k + 1, i),
        )
    } else {
        Set::empty()
    }
}

/// Whatever initialize touches stands at or below the initialized node.
pub proof fn lemma_touched_le(bs: Seq<Behavior>, i: usize, j: usize)
    requires
        crate::semantics::structure_wf(bs),
        (i as int) < bs.len(),
        touched(bs, i).contains(j),
    ensures
        j <= i,
    decreases i, 1int, 0int,
{
    assert(crate::semantics::behavior_wf(bs, i as int));
    match bs[i as int] {
        Behavior::Action(_) => {},
        Behavior::Sequence(q) => {
            if q.children@.len() > 0 && q.children@[0] < i && j != i && touched(bs, q.children@[0]).contains(j) {
                lemma_touched_le(bs, q.children@[0], j);
            }
        },
        Behavior::Selector(q) => {
            if q.children@.len() > 0 && q.children@[0] < i && j != i && touched(bs, q.children@[0]).contains(j) {
                lemma_touched_le(bs, q.children@[0], j);
            }
        },
        Behavior::Parallel(q) => {
            if q.children@.len() > 0 && j != i {
                lemma_touched_list_le(bs, q.children@, 0, i, j);
            }
        },
        Behavior::Repeater(rp) => {
            if rp.child < i && j != i && touched(bs, rp.child).contains(j) {
                lemma_touched_le(bs, rp.child, j);
            }
        },
        Behavior::Monitor(m) => {
            if j != i && j != m.actions && m.conditions < i && touched(bs, m.conditions).contains(j) {
                lemma_touched_le(bs, m.conditions, j);
            }
        },
        Behavior::ActiveSelector(a) => {
            if j != i && j != a.low_priority && a.high_priority < i && touched(bs, a.high_priority).contains(j) {
                lemma_touched_le(bs, a.high_priority, j);
            }
        },
    }
}

proof fn lemma_touched_list_le(bs: Seq<Behavior>, ch: Seq<usize>, k: int, i: usize, j: usize)
    requires
        crate::semantics::structure_wf(bs),
        (i as int) < bs.len(),
        touched_list(bs, ch, k, i).contains(j),
    ensures
        j < i,
    decreases i, 0int, ch.len() - k,
{
    if 0 <= k < ch.len() {
        if ch[k] < i && touched(bs, ch[k]).contains(j) {
            lemma_touched_le(bs, ch[k], j);
        } else {
            lemma_touched_list_le(bs, ch, k + 1, i, j);
        }
    }
}

/// Initializing a node never changes how many nodes the tree has.
pub proof fn lemma_init_len(bs: Seq<Behavior>, s: Sched, i: usize)
    requires
        crate::semantics::structure_wf(bs),
        (i as int) < bs.len(),
        s.states.len() == bs.len(),
    ensures
        init_effect(bs, s, i).states.len() == bs.len(),
    decreases i, 1int, 0int,
{
    assert(crate::semantics::behavior_wf(bs, i as int));
    match bs[i as int] {
        Behavior::Action(_) => {
            assert(init_effect(bs, s, i).states.len() == bs.len());
        },
        Behavior::Sequence(q) => {
            assert(init_effect(bs, s, i) == crate::semantics::init_first(bs, s, i, q.children@));
            if q.children@.len() > 0 && q.children@[0] < i {
                lemma_init_len(bs, enqueue_node(
                    set_state(s, i as int, started(s.states[i as int])),
                    Event { node: q.children@[0], parent: Some(i) },
                ), q.children@[0]);
            }
            assert(init_effect(bs, s, i).states.len() == bs.len());
        },
        Behavior::Selector(q) => {
            assert(init_effect(bs, s, i) == crate::semantics::init_first(bs, s, i, q.children@));
            if q.children@.len() > 0 && q.children@[0] < i {
                lemma_init_len(bs, enqueue_node(
                    set_state(s, i as int, started(s.states[i as int])),
                    Event { node: q.children@[0], parent: Some(i) },
                ), q.children@[0]);
            }
            assert(init_effect(bs, s, i).states.len() == bs.len());
        },
        Behavior::Parallel(q) => {
            if q.children@.len() > 0 {
                lemma_activate_len(
                    bs,
                    set_state(s, i as int, started_all(s.states[i as int], q.children.len())),
                    q.children@,
                    0,
                    i,
                );
            }
            assert(init_effect(bs, s, i).states.len() == bs.len());
        },
        Behavior::Repeater(rp) => {
            if rp.child < i {
                lemma_init_len(bs, enqueue_node(
                    set_state(s, i as int, started(s.states[i as int])),
                    Event { node: rp.child, parent: Some(i) },
                ), rp.child);
            }
            assert(init_effect(bs, s, i).states.len() == bs.len());
        },
        Behavior::Monitor(m) => {
            if m.conditions < i {
                let s1 = set_state(s, i as int, started(s.states[i as int]));
                let s2 = crate::semantics::clear_effect(bs, s1, m.actions);
                let s3 = enqueue_node(s2, Event { node: m.conditions, parent: Some(i) });
                lemma_init_len(bs, s3, m.conditions);
            }
            assert(init_effect(bs, s, i).states.len() == bs.len());
        },
        Behavior::ActiveSelector(a) => {
            if a.high_priority < i {
                let s1 = set_state(s, i as int, started(s.states[i as int]));
                let s2 = crate::semantics::clear_effect(bs, s1, a.low_priority);
                let s3 = enqueue_node(s2, Event { node: a.high_priority, parent: Some(i) });
                lemma_init_len(bs, s3, a.high_priority);
            }
            assert(init_effect(bs, s, i).states.len() == bs.len());
        },
    }
}

proof fn lemma_activate_len(bs: Seq<Behavior>, s: Sched, ch: Seq<usize>, k: int, i: usize)
    requires
        crate::semantics::structure_wf(bs),
        (i as int) < bs.len(),
        s.states.len() == bs.len(),
    ensures
        activate_all(bs, s, ch, k, i).states.len() == bs.len(),
    decreases i, 0int, ch.len() - k,
{
    if 0 <= k < ch.len() {
        let c = ch[k];
        let s1 = enqueue_node(s, Event { node: c, parent: Some(i) });
        let s2 = if c < i {
            init_effect(bs, s1, c)
        } else {
            s1
        };
        if c < i {
            lemma_init_len(bs, s1, c);
        }
        lemma_activate_len(bs, s2, ch, k + 1, i);
    }
}

/// Initializing node `i` leaves the scheduling state of every node outside
/// its touched set unchanged.
pub proof fn lemma_init_frame(bs: Seq<Behavior>, s: Sched, i: usize, j: usize)
    requires
        crate::semantics::structure_wf(bs),
        (i as int) < bs.len(),
        s.states.len() == bs.len(),
        (j as int) < bs.len(),
        !touched(bs, i).contains(j),
    ensures
        init_effect(bs, s, i).states[j as int] == s.states[j as int],
    decreases i, 1int, 0int,
{
    assert(touched(bs, i).contains(i));
    assert(crate::semantics::behavior_wf(bs, i as int));
    match bs[i as int] {
        Behavior::Action(_) => {
            assert(init_effect(bs, s, i).states[j as int] == s.states[j as int]);
        },
        Behavior::Sequence(q) => {
            assert(init_effect(bs, s, i) == crate::semantics::init_first(bs, s, i, q.children@));
            if q.children@.len() > 0 && q.children@[0] < i {
                let c = q.children@[0];
                assert(!touched(bs, c).contains(j));
                lemma_init_frame(bs, enqueue_node(
                    set_state(s, i as int, started(s.states[i as int])),
                    Event { node: c, parent: Some(i) },
                ), c, j);
            }
            assert(init_effect(bs, s, i).states[j as int] == s.states[j as int]);
        },
        Behavior::Selector(q) => {
            assert(init_effect(bs, s, i) == crate::semantics::init_first(bs, s, i, q.children@));
            if q.children@.len() > 0 && q.children@[0] < i {
                let c = q.children@[0];
                assert(!touched(bs, c).contains(j));
                lemma_init_frame(bs, enqueue_node(
                    set_state(s, i as int, started(s.states[i as int])),
                    Event { node: c, parent: Some(i) },
                ), c, j);
            }
            assert(init_effect(bs, s, i).states[j as int] == s.states[j as int]);
        },
        Behavior::Parallel(q) => {
            if q.children@.len() > 0 {
                lemma_activate_frame(
                    bs,
                    set_state(s, i as int, started_all(s.states[i as int], q.children.len())),
                    q.children@,
                    0,
                    i,
                    j,
                );
            }
            assert(init_effect(bs, s, i).states[j as int] == s.states[j as int]);
        },
        Behavior::Repeater(rp) => {
            if rp.child < i {
                assert(!touched(bs, rp.child).contains(j));
                lemma_init_frame(bs, enqueue_node(
                    set_state(s, i as int, started(s.states[i as int])),
                    Event { node: rp.child, parent: Some(i) },
                ), rp.child, j);
            }
            assert(init_effect(bs, s, i).states[j as int] == s.states[j as int]);
        },
        Behavior::Monitor(m) => {
            assert(touched(bs, i).contains(m.actions));
            if m.conditions < i {
                let s1 = set_state(s, i as int, started(s.states[i as int]));
                let s2 = crate::semantics::clear_effect(bs, s1, m.actions);
                let s3 = enqueue_node(s2, Event { node: m.conditions, parent: Some(i) });
                assert(!touched(bs, m.conditions).contains(j));
                lemma_init_frame(bs, s3, m.conditions, j);
            }
            assert(init_effect(bs, s, i).states[j as int] == s.states[j as int]);
        },
        Behavior::ActiveSelector(a) => {
            assert(touched(bs, i).contains(a.low_priority));
            if a.high_priority < i {
                let s1 = set_state(s, i as int, started(s.states[i as int]));
                let s2 = crate::semantics::clear_effect(bs, s1, a.low_priority);
                let s3 = enqueue_node(s2, Event { node: a.high_priority, parent: Some(i) });
                assert(!touched(bs, a.high_priority).contains(j));
                lemma_init_frame(bs, s3, a.high_priority, j);
            }
            assert(init_effect(bs, s, i).states[j as int] == s.states[j as int]);
        },
    }
}

proof fn lemma_activate_frame(bs: Seq<Behavior>, s: Sched, ch: Seq<usize>, k: int, i: usize, j: usize)
    requires
        crate::semantics::structure_wf(bs),
        (i as int) < bs.len(),
        s.states.len() == bs.len(),
        (j as int) < bs.len(),
        !touched_list(bs, ch, k, i).contains(j),
    ensures
        activate_all(bs, s, ch, k, i).states[j as int] == s.states[j as int],
    decreases i, 0int, ch.len() - k,
{
    if 0 <= k < ch.len() {
        let c = ch[k];
        assert(!touched_list(bs, ch, k + 1, i).contains(j));
        let s1 = enqueue_node(s, Event { node: c, parent: Some(i) });
        let s2 = if c < i {
            init_effect(bs, s1, c)
        } else {
            s1
        };
        if c < i {
            assert(!touched(bs, c).contains(j));
            lemma_init_frame(bs, s1, c, j);
            lemma_init_len(bs, s1, c);
        }
        lemma_activate_frame(bs, s2, ch, k + 1, i, j);
    }
}

/// The part of a node's scheduling state that `start` promises to reset:
/// everything the scheduler itself maintains. The activation and tick
/// tallies exist only for observation and are never reset; a leaf's cursor
/// is the position in its own workload script, which, like the captured
/// state of a host-supplied action, persists across activations.
pub open spec fn same_core(b: Behavior, x: NodeState, y: NodeState) -> bool {
    &&& x.status == y.status
    &&& (!(b is Action) ==> x.cursor == y.cursor)
    &&& x.success_count == y.success_count
    &&& x.failure_count == y.failure_count
    &&& x.current_loop == y.current_loop
}

/// Initializing node `i` gives every node it touches a scheduling state that
/// does not depend on the states the tree held before: two runs from any two
/// prior states agree on the whole touched set.
pub proof fn lemma_init_resets(bs: Seq<Behavior>, s1: Sched, s2: Sched, i: usize, j: usize)
    requires
        crate::semantics::structure_wf(bs),
        (i as int) < bs.len(),
        s1.states.len() == bs.len(),
        s2.states.len() == bs.len(),
        touched(bs, i).contains(j),
    ensures
        same_core(
            bs[j as int],
            init_effect(bs, s1, i).states[j as int],
            init_effect(bs, s2, i).states[j as int],
        ),
    decreases i, 1int, 0int,
{
    lemma_touched_le(bs, i, j);
    assert(crate::semantics::behavior_wf(bs, i as int));
    match bs[i as int] {
        Behavior::Action(_) => {
            assert(same_core(bs[j as int], init_effect(bs, s1, i).states[j as int], init_effect(bs, s2, i).states[j as int]));
        },
        Behavior::Sequence(q) => {
            assert(init_effect(bs, s1, i) == crate::semantics::init_first(bs, s1, i, q.children@));
            assert(init_effect(bs, s2, i) == crate::semantics::init_first(bs, s2, i, q.children@));
            if q.children@.len() > 0 && q.children@[0] < i {
                let c = q.children@[0];
                let t1 = enqueue_node(
                    set_state(s1, i as int, started(s1.states[i as int])),
                    Event { node: c, parent: Some(i) },
                );
                let t2 = enqueue_node(
                    set_state(s2, i as int, started(s2.states[i as int])),
                    Event { node: c, parent: Some(i) },
                );
                if touched(bs, c).contains(j) {
                    lemma_init_resets(bs, t1, t2, c, j);
                } else {
                    assert(j == i);
                    lemma_init_frame(bs, t1, c, j);
                    lemma_init_frame(bs, t2, c, j);
                }
            }
            assert(same_core(bs[j as int], init_effect(bs, s1, i).states[j as int], init_effect(bs, s2, i).states[j as int]));
        },
        Behavior::Selector(q) => {
            assert(init_effect(bs, s1, i) == crate::semantics::init_first(bs, s1, i, q.children@));
            assert(init_effect(bs, s2, i) == crate::semantics::init_first(bs, s2, i, q.children@));
            if q.children@.len() > 0 && q.children@[0] < i {
                let c = q.children@[0];
                let t1 = enqueue_node(
                    set_state(s1, i as int, started(s1.states[i as int])),
                    Event { node: c, parent: Some(i) },
                );
                let t2 = enqueue_node(
                    set_state(s2, i as int, started(s2.states[i as int])),
                    Event { node: c, parent: Some(i) },
                );
                if touched(bs, c).contains(j) {
                    lemma_init_resets(bs, t1, t2, c, j);
                } else {
                    assert(j == i);
                    lemma_init_frame(bs, t1, c, j);
                    lemma_init_frame(bs, t2, c, j);
                }
            }
            assert(same_core(bs[j as int], init_effect(bs, s1, i).states[j as int], init_effect(bs, s2, i).states[j as int]));
        },
        Behavior::Parallel(q) => {
            if q.children@.len() > 0 {
                let t1 = set_state(s1, i as int, started_all(s1.states[i as int], q.children.len()));
                let t2 = set_state(s2, i as int, started_all(s2.states[i as int], q.children.len()));
                if touched_list(bs, q.children@, 0, i).contains(j) {
                    lemma_activate_resets(bs, t1, t2, q.children@, 0, i, j);
                } else {
                    assert(j == i);
                    lemma_activate_frame(bs, t1, q.children@, 0, i, j);
                    lemma_activate_frame(bs, t2, q.children@, 0, i, j);
                }
            }
            assert(same_core(bs[j as int], init_effect(bs, s1, i).states[j as int], init_effect(bs, s2, i).states[j as int]));
        },
        Behavior::Repeater(rp) => {
            if rp.child < i {
                let c = rp.child;
                let t1 = enqueue_node(
                    set_state(s1, i as int, started(s1.states[i as int])),
                    Event { node: c, parent: Some(i) },
                );
                let t2 = enqueue_node(
                    set_state(s2, i as int, started(s2.states[i as int])),
                    Event { node: c, parent: Some(i) },
                );
                if touched(bs, c).contains(j) {
                    lemma_init_resets(bs, t1, t2, c, j);
                } else {
                    assert(j == i);
                    lemma_init_frame(bs, t1, c, j);
                    lemma_init_frame(bs, t2, c, j);
                }
            }
            assert(same_core(bs[j as int], init_effect(bs, s1, i).states[j as int], init_effect(bs, s2, i).states[j as int]));
        },
        Behavior::Monitor(m) => {
            let u1 = set_state(s1, i as int, started(s1.states[i as int]));
            let v1 = crate::semantics::clear_effect(bs, u1, m.actions);
            let t1 = enqueue_node(v1, Event { node: m.conditions, parent: Some(i) });
            let u2 = set_state(s2, i as int, started(s2.states[i as int]));
            let v2 = crate::semantics::clear_effect(bs, u2, m.actions);
            let t2 = enqueue_node(v2, Event { node: m.conditions, parent: Some(i) });
            if m.conditions < i && touched(bs, m.conditions).contains(j) {
                lemma_init_resets(bs, t1, t2, m.conditions, j);
            } else {
                assert(j == i || j == m.actions);
                if m.conditions < i {
                    lemma_init_frame(bs, t1, m.conditions, j);
                    lemma_init_frame(bs, t2, m.conditions, j);
                }
            }
            assert(same_core(bs[j as int], init_effect(bs, s1, i).states[j as int], init_effect(bs, s2, i).states[j as int]));
        },
        Behavior::ActiveSelector(a) => {
            let u1 = set_state(s1, i as int, started(s1.states[i as int]));
            let v1 = crate::semantics::clear_effect(bs, u1, a.low_priority);
            let t1 = enqueue_node(v1, Event { node: a.high_priority, parent: Some(i) });
            let u2 = set_state(s2, i as int, started(s2.states[i as int]));
            let v2 = crate::semantics::clear_effect(bs, u2, a.low_priority);
            let t2 = enqueue_node(v2, Event { node: a.high_priority, parent: Some(i) });
            if a.high_priority < i && touched(bs, a.high_priority).contains(j) {
                lemma_init_resets(bs, t1, t2, a.high_priority, j);
            } else {
                assert(j == i || j == a.low_priority);
                if a.high_priority < i {
                    lemma_init_frame(bs, t1, a.high_priority, j);
                    lemma_init_frame(bs, t2, a.high_priority, j);
                }
            }
            assert(same_core(bs[j as int], init_effect(bs, s1, i).states[j as int], init_effect(bs, s2, i).states[j as int]));
        },
    }
}

proof fn lemma_activate_resets(bs: Seq<Behavior>, s1: Sched, s2: Sched, ch: Seq<usize>, k: int, i: usize, j: usize)
    requires
        crate::semantics::structure_wf(bs),
        (i as int) < bs.len(),
        s1.states.len() == bs.len(),
        s2.states.len() == bs.len(),
        touched_list(bs, ch, k, i).contains(j),
    ensures
        same_core(
            bs[j as int],
            activate_all(bs, s1, ch, k, i).states[j as int],
            activate_all(bs, s2, ch, k, i).states[j as int],
        ),
    decreases i, 0int, ch.len() - k,
{
    lemma_touched_list_le(bs, ch, k, i, j);
    if 0 <= k < ch.len() {
        let c = ch[k];
        let p1 = enqueue_node(s1, Event { node: c, parent: Some(i) });
        let p2 = enqueue_node(s2, Event { node: c, parent: Some(i) });
        let q1 = if c < i {
            init_effect(bs, p1, c)
        } else {
            p1
        };
        let q2 = if c < i {
            init_effect(bs, p2, c)
        } else {
            p2
        };
        if c < i {
            lemma_init_len(bs, p1, c);
            lemma_init_len(bs, p2, c);
        }
        if touched_list(bs, ch, k + 1, i).contains(j) {
            lemma_activate_resets(bs, q1, q2, ch, k + 1, i, j);
        } else {
            // `j` was touched by child `c` and by no later child: the value
            // its initialization writes survives the rest of the fold.
            assert(c < i && touched(bs, c).contains(j));
            lemma_init_resets(bs, p1, p2, c, j);
            lemma_activate_frame(bs, q1, ch, k + 1, i, j);
            lemma_activate_frame(bs, q2, ch, k + 1, i, j);
        }
    }
}

/// One completion report on a Sequence node moves the node's cursor and
/// status exactly by [`seq_policy`]; activating the next child never
/// disturbs the sequence's own state. Together with
/// [`lemma_sequence_completions`] this pins the engine's behavior over a
/// whole run of child completions.
pub proof fn lemma_sequence_transition(bs: Seq<Behavior>, s: Sched, p: usize, c: usize, r: Status)
    requires
        crate::semantics::structure_wf(bs),
        (p as int) < bs.len(),
        s.states.len() == bs.len(),
        bs[p as int] is Sequence,
    ensures
        ({
            let n = crate::semantics::kids(bs[p as int]).len() as int;
            let pol = seq_policy(s.states[p as int].cursor as int, n, r);
            let post = crate::semantics::complete_effect(bs, s, p, c, r).states[p as int];
            post.status == pol.1 && post.cursor == pol.0 as usize
        }),
{
    assert(crate::semantics::behavior_wf(bs, p as int));
    let st = s.states[p as int];
    let q = bs[p as int]->Sequence_0;
    let n = q.children@.len() as int;
    let pol = seq_policy(st.cursor as int, n, r);
    let s1 = set_state(s, p as int, NodeState { status: pol.1, cursor: pol.0 as usize, ..st });
    if pol.1 == Status::Running {
        let ch = q.children@[pol.0];
        let s2 = enqueue_node(s1, Event { node: ch, parent: Some(p) });
        if ch < p {
            if touched(bs, ch).contains(p) {
                lemma_touched_le(bs, ch, p);
            }
            lemma_init_frame(bs, s2, ch, p);
        }
    }
}

/// The Selector counterpart of [`lemma_sequence_transition`]: one completion
/// report moves the selector's cursor and status exactly by [`sel_policy`].
pub proof fn lemma_selector_transition(bs: Seq<Behavior>, s: Sched, p: usize, c: usize, r: Status)
    requires
        crate::semantics::structure_wf(bs),
        (p as int) < bs.len(),
        s.states.len() == bs.len(),
        bs[p as int] is Selector,
    ensures
        ({
            let n = crate::semantics::kids(bs[p as int]).len() as int;
            let pol = sel_policy(s.states[p as int].cursor as int, n, r);
            let post = crate::semantics::complete_effect(bs, s, p, c, r).states[p as int];
            post.status == pol.1 && post.cursor == pol.0 as usize
        }),
{
    assert(crate::semantics::behavior_wf(bs, p as int));
    let st = s.states[p as int];
    let q = bs[p as int]->Selector_0;
    let n = q.children@.len() as int;
    let pol = sel_policy(st.cursor as int, n, r);
    let s1 = set_state(s, p as int, NodeState { status: pol.1, cursor: pol.0 as usize, ..st });
    if pol.1 == Status::Running {
        let ch = q.children@[pol.0];
        let s2 = enqueue_node(s1, Event { node: ch, parent: Some(p) });
        if ch < p {
            if touched(bs, ch).contains(p) {
                lemma_touched_le(bs, ch, p);
            }
            lemma_init_frame(bs, s2, ch, p);
        }
    }
}

/// One completion report on a Parallel node updates its counters by
/// [`par_count`] and its status by [`par_resolve`]; terminating the
/// still-running children never disturbs the parallel's own state.
pub proof fn lemma_parallel_transition(bs: Seq<Behavior>, s: Sched, p: usize, c: usize, r: Status)
    requires
        crate::semantics::structure_wf(bs),
        (p as int) < bs.len(),
        s.states.len() == bs.len(),
        bs[p as int] is Parallel,
    ensures
        ({
            let q = bs[p as int]->Parallel_0;
            let n = q.children@.len() as int;
            let st = s.states[p as int];
            let cnt = par_count(st.success_count as int, st.failure_count as int, n, r);
            let ns = par_resolve(q.success_policy, q.failure_policy, cnt.0, cnt.1, n);
            let post = crate::semantics::complete_effect(bs, s, p, c, r).states[p as int];
            post.status == ns && post.success_count == cnt.0 as usize && post.failure_count == cnt.1 as usize
        }),
{
    assert(crate::semantics::behavior_wf(bs, p as int));
    let st = s.states[p as int];
    let q = bs[p as int]->Parallel_0;
    let n = q.children@.len() as int;
    let cnt = par_count(st.success_count as int, st.failure_count as int, n, r);
    let ns = par_resolve(q.success_policy, q.failure_policy, cnt.0, cnt.1, n);
    let s1 = set_state(
        s,
        p as int,
        NodeState { status: ns, success_count: cnt.0 as usize, failure_count: cnt.1 as usize, ..st },
    );
    if ns != Status::Running {
        lemma_abort_list_above(bs, s1, q.children@, 0, p, p);
    }
}

/// Under failure policy `One`, a Parallel node resolves to `Failure` the
/// moment any child reports a non-`Success` terminal result, whatever its
/// success policy and the counts accumulated so far.
pub proof fn lemma_parallel_failure_resolves(bs: Seq<Behavior>, s: Sched, p: usize, c: usize, r: Status)
    requires
        crate::semantics::structure_wf(bs),
        (p as int) < bs.len(),
        s.states.len() == bs.len(),
        bs[p as int] is Parallel,
        bs[p as int]->Parallel_0.failure_policy == ParallelPolicy::One,
        crate::semantics::kids(bs[p as int]).len() >= 1,
        s.states[p as int].success_count + s.states[p as int].failure_count < crate::semantics::kids(
            bs[p as int],
        ).len(),
        r.is_terminal(),
        r != Status::Success,
    ensures
        crate::semantics::complete_effect(bs, s, p, c, r).states[p as int].status == Status::Failure,
{
    lemma_parallel_transition(bs, s, p, c, r);
    let st = s.states[p as int];
    let q = bs[p as int]->Parallel_0;
    lemma_parallel_one_failure(
        q.success_policy,
        st.success_count as int,
        st.failure_count as int,
        q.children@.len() as int,
        r,
    );
}

/// One terminal completion report on a Repeater moves its loop counter and
/// status exactly by [`rep_policy`]; re-initializing the child never
/// disturbs the repeater's own state.
pub proof fn lemma_repeater_transition(bs: Seq<Behavior>, s: Sched, p: usize, c: usize, r: Status)
    requires
        crate::semantics::structure_wf(bs),
        (p as int) < bs.len(),
        s.states.len() == bs.len(),
        bs[p as int] is Repeater,
        r.is_terminal(),
    ensures
        ({
            let rp = bs[p as int]->Repeater_0;
            let pol = rep_policy(s.states[p as int].current_loop as int, rp.repeat_for as int, r);
            let post = crate::semantics::complete_effect(bs, s, p, c, r).states[p as int];
            post.status == pol.1 && post.current_loop == pol.0 as usize
        }),
{
    assert(crate::semantics::behavior_wf(bs, p as int));
    let st = s.states[p as int];
    let rp = bs[p as int]->Repeater_0;
    let pol = rep_policy(st.current_loop as int, rp.repeat_for as int, r);
    let s1 = set_state(s, p as int, NodeState { status: pol.1, current_loop: pol.0 as usize, ..st });
    if pol.2 {
        let s2 = enqueue_node(s1, Event { node: rp.child, parent: Some(p) });
        if rp.child < p {
            if touched(bs, rp.child).contains(p) {
                lemma_touched_le(bs, rp.child, p);
            }
            lemma_init_frame(bs, s2, rp.child, p);
        }
    }
}

/// Aborting a subtree never writes at or above any index beyond its root.
proof fn lemma_abort_above(bs: Seq<Behavior>, s: Sched, i: usize, j: usize)
    requires
        crate::semantics::structure_wf(bs),
        (i as int) < bs.len(),
        s.states.len() == bs.len(),
        (j as int) < bs.len(),
        i < j,
    ensures
        crate::semantics::abort_effect(bs, s, i).states[j as int] == s.states[j as int],
    decreases i, 2int, 0int,
{
    assert(crate::semantics::behavior_wf(bs, i as int));
    let st = s.states[i as int];
    match bs[i as int] {
        Behavior::Action(_) => {
            assert(crate::semantics::abort_effect(bs, s, i).states[j as int] == s.states[j as int]);
        },
        Behavior::Sequence(q) => {
            lemma_abort_active_above(bs, s, q.children@, st.cursor, i, j);
            lemma_abort_active_len(bs, s, q.children@, st.cursor, i);
            assert(crate::semantics::abort_effect(bs, s, i).states[j as int] == s.states[j as int]);
        },
        Behavior::Selector(q) => {
            lemma_abort_active_above(bs, s, q.children@, st.cursor, i, j);
            lemma_abort_active_len(bs, s, q.children@, st.cursor, i);
            assert(crate::semantics::abort_effect(bs, s, i).states[j as int] == s.states[j as int]);
        },
        Behavior::Parallel(q) => {
            lemma_abort_list_above(bs, s, q.children@, 0, i, j);
            lemma_abort_list_len(bs, s, q.children@, 0, i);
            assert(crate::semantics::abort_effect(bs, s, i).states[j as int] == s.states[j as int]);
        },
        Behavior::Repeater(rp) => {
            if s.states[rp.child as int].status == Status::Running && rp.child < i {
                lemma_abort_above(bs, s, rp.child, j);
                lemma_abort_len(bs, s, rp.child);
            }
            assert(crate::semantics::abort_effect(bs, s, i).states[j as int] == s.states[j as int]);
        },
        Behavior::Monitor(m) => {
            let s1 = if s.states[m.conditions as int].status == Status::Running && m.conditions < i {
                crate::semantics::abort_effect(bs, s, m.conditions)
            } else {
                s
            };
            if s.states[m.conditions as int].status == Status::Running && m.conditions < i {
                lemma_abort_above(bs, s, m.conditions, j);
                lemma_abort_len(bs, s, m.conditions);
            }
            if s1.states[m.actions as int].status == Status::Running && m.actions < i {
                lemma_abort_above(bs, s1, m.actions, j);
                lemma_abort_len(bs, s1, m.actions);
            }
            assert(crate::semantics::abort_effect(bs, s, i).states[j as int] == s.states[j as int]);
        },
        Behavior::ActiveSelector(a) => {
            let s1 = if s.states[a.high_priority as int].status == Status::Running && a.high_priority < i {
                crate::semantics::abort_effect(bs, s, a.high_priority)
            } else {
                s
            };
            if s.states[a.high_priority as int].status == Status::Running && a.high_priority < i {
                lemma_abort_above(bs, s, a.high_priority, j);
                lemma_abort_len(bs, s, a.high_priority);
            }
            if s1.states[a.low_priority as int].status == Status::Running && a.low_priority < i {
                lemma_abort_above(bs, s1, a.low_priority, j);
                lemma_abort_len(bs, s1, a.low_priority);
            }
            assert(crate::semantics::abort_effect(bs, s, i).states[j as int] == s.states[j as int]);
        },
    }
}

proof fn lemma_abort_active_above(bs: Seq<Behavior>, s: Sched, ch: Seq<usize>, cur: usize, i: usize, j: usize)
    requires
        crate::semantics::structure_wf(bs),
        (i as int) < bs.len(),
        s.states.len() == bs.len(),
        (j as int) < bs.len(),
        i <= j,
    ensures
        crate::semantics::abort_active_child(bs, s, ch, cur, i).states[j as int] == s.states[j as int],
    decreases i, 1int, 0int,
{
    if (cur as int) < ch.len() {
        let c = ch[cur as int];
        if s.states[c as int].status == Status::Running && c < i {
            lemma_abort_above(bs, s, c, j);
        }
    }
}

proof fn lemma_abort_list_above(bs: Seq<Behavior>, s: Sched, ch: Seq<usize>, k: int, i: usize, j: usize)
    requires
        crate::semantics::structure_wf(bs),
        (i as int) < bs.len(),
        s.states.len() == bs.len(),
        (j as int) < bs.len(),
        i <= j,
    ensures
        crate::semantics::abort_running_list(bs, s, ch, k, i).states[j as int] == s.states[j as int],
    decreases i, 1int, ch.len() - k,
{
    if 0 <= k < ch.len() {
        let c = ch[k];
        let s1 = if s.states[c as int].status == Status::Running && c < i {
            crate::semantics::abort_effect(bs, s, c)
        } else {
            s
        };
        if s.states[c as int].status == Status::Running && c < i {
            lemma_abort_above(bs, s, c, j);
            lemma_abort_len(bs, s, c);
        }
        lemma_abort_list_above(bs, s1, ch, k + 1, i, j);
    }
}

/// Aborting a node never changes how many nodes the tree has.
proof fn lemma_abort_len(bs: Seq<Behavior>, s: Sched, i: usize)
    requires
        crate::semantics::structure_wf(bs),
        (i as int) < bs.len(),
        s.states.len() == bs.len(),
    ensures
        crate::semantics::abort_effect(bs, s, i).states.len() == bs.len(),
    decreases i, 2int, 0int,
{
    assert(crate::semantics::behavior_wf(bs, i as int));
    let st = s.states[i as int];
    match bs[i as int] {
        Behavior::Action(_) => {},
        Behavior::Sequence(q) => {
            lemma_abort_active_len(bs, s, q.children@, st.cursor, i);
        },
        Behavior::Selector(q) => {
            lemma_abort_active_len(bs, s, q.children@, st.cursor, i);
        },
        Behavior::Parallel(q) => {
            lemma_abort_list_len(bs, s, q.children@, 0, i);
        },
        Behavior::Repeater(rp) => {
            if s.states[rp.child as int].status == Status::Running && rp.child < i {
                lemma_abort_len(bs, s, rp.child);
            }
        },
        Behavior::Monitor(m) => {
            let s1 = if s.states[m.conditions as int].status == Status::Running && m.conditions < i {
                crate::semantics::abort_effect(bs, s, m.conditions)
            } else {
                s
            };
            if s.states[m.conditions as int].status == Status::Running && m.conditions < i {
                lemma_abort_len(bs, s, m.conditions);
            }
            if s1.states[m.actions as int].status == Status::Running && m.actions < i {
                lemma_abort_len(bs, s1, m.actions);
            }
        },
        Behavior::ActiveSelector(a) => {
            let s1 = if s.states[a.high_priority as int].status == Status::Running && a.high_priority < i {
                crate::semantics::abort_effect(bs, s, a.high_priority)
            } else {
                s
            };
            if s.states[a.high_priority as int].status == Status::Running && a.high_priority < i {
                lemma_abort_len(bs, s, a.high_priority);
            }
            if s1.states[a.low_priority as int].status == Status::Running && a.low_priority < i {
                lemma_abort_len(bs, s1, a.low_priority);
            }
        },
    }
}

proof fn lemma_abort_active_len(bs: Seq<Behavior>, s: Sched, ch: Seq<usize>, cur: usize, i: usize)
    requires
        crate::semantics::structure_wf(bs),
        (i as int) < bs.len(),
        s.states.len() == bs.len(),
    ensures
        crate::semantics::abort_active_child(bs, s, ch, cur, i).states.len() == bs.len(),
    decreases i, 1int, 0int,
{
    if (cur as int) < ch.len() {
        let c = ch[cur as int];
        if s.states[c as int].status == Status::Running && c < i {
            lemma_abort_len(bs, s, c);
        }
    }
}

proof fn lemma_abort_list_len(bs: Seq<Behavior>, s: Sched, ch: Seq<usize>, k: int, i: usize)
    requires
        crate::semantics::structure_wf(bs),
        (i as int) < bs.len(),
        s.states.len() == bs.len(),
    ensures
        crate::semantics::abort_running_list(bs, s, ch, k, i).states.len() == bs.len(),
    decreases i, 1int, ch.len() - k,
{
    if 0 <= k < ch.len() {
        let c = ch[k];
        let s1 = if s.states[c as int].status == Status::Running && c < i {
            crate::semantics::abort_effect(bs, s, c)
        } else {
            s
        };
        if s.states[c as int].status == Status::Running && c < i {
            lemma_abort_len(bs, s, c);
        }
        lemma_abort_list_len(bs, s1, ch, k + 1, i);
    }
}

/// Idempotence of `start`: starting a tree resets every node its
/// initialization chain reaches to a scheduling state that depends only on
/// the tree's structure. In particular, restarting a previously completed
/// tree leaves every reachable node's status, cursor and counters exactly as
/// in a freshly built tree of the same structure.
pub proof fn lemma_start_resets(bs: Seq<Behavior>, s1: Sched, s2: Sched, root: usize, j: usize)
    requires
        crate::semantics::structure_wf(bs),
        (root as int) < bs.len(),
        s1.states.len() == bs.len(),
        s2.states.len() == bs.len(),
        touched(bs, root).contains(j),
    ensures
        same_core(
            bs[j as int],
            start_effect(bs, s1, root).states[j as int],
            start_effect(bs, s2, root).states[j as int],
        ),
{
    let e = Event { node: root, parent: None };
    let t1 = Sched { states: s1.states, events: Seq::empty().push(e) };
    let t2 = Sched { states: s2.states, events: Seq::empty().push(e) };
    lemma_init_resets(bs, t1, t2, root, j);
}

} // verus!
