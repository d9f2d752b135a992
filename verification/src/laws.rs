//! What holds of every state that the transitions can reach: the soundness
//! of the priority ceilings, the stack discipline of the threshold, and the
//! rule that equal priorities do not preempt each other.

use vstd::prelude::*;
use crate::config::{law_ceiling_unique, table_of};
use crate::model::{Event, State};
use crate::preservation::{
    lemma_activate_wf, lemma_claim_wf, lemma_complete_wf, lemma_inner_preempter_above_ceiling,
    lemma_listed_under_ceiling, lemma_next_exists, lemma_raised_bounds, lemma_release_wf, lemma_store_wf,
};

verus! {

/// Priority-ceiling soundness, on the running stack: an activation that
/// runs above the holder of a claim has a priority above the ceiling of the
/// claimed resource.
pub proof fn law_preempter_above_ceiling(s: State, j: int, i: int)
    requires
        s.wf(),
        0 <= j < s.claims.len(),
        s.claims[j].depth < i < s.running.len(),
    ensures
        s.priority(s.running[i]) > s.ceilings[s.claims[j].resource as int],
{
    lemma_inner_preempter_above_ceiling(s, j, i);
}

/// Priority-ceiling soundness, for the task that executes: while a claim on a
/// resource is held, the task that executes is the holder of the claim or
/// has a priority above the ceiling of the resource.
pub proof fn law_executing_holds_or_is_above(s: State, j: int)
    requires
        s.wf(),
        0 <= j < s.claims.len(),
    ensures
        s.running.len() > 0,
        s.claims[j].depth + 1 == s.running.len() || s.priority(s.running.last()) > s.ceilings[s.claims[j].resource
            as int],
{
    let top = s.running.len() - 1;
    if s.claims[j].depth < top {
        law_preempter_above_ceiling(s, j, top);
    }
}

/// No resource is held twice: two claims that are held are on different
/// resources.
pub proof fn law_single_holder(s: State, j: int, k: int)
    requires
        s.wf(),
        0 <= j < s.claims.len(),
        0 <= k < s.claims.len(),
        j != k,
    ensures
        s.claims[j].resource != s.claims[k].resource,
{
    if j < k {
        assert(s.claims[j].resource != s.claims[k].resource);
    } else {
        assert(s.claims[k].resource != s.claims[j].resource);
    }
}

/// Priority-ceiling soundness, at the level: while a claim is held, the level
/// that an activation must exceed to start is at least the ceiling of the
/// claimed resource.
pub proof fn law_level_covers_ceiling(s: State, j: int)
    requires
        s.inner_wf(),
        0 <= j < s.claims.len(),
    ensures
        s.level() >= s.ceilings[s.claims[j].resource as int],
{
    lemma_raised_bounds(s, j);
    let c = s.claims[j];
    let top = s.running.len() - 1;
    if c.depth < top {
        lemma_inner_preempter_above_ceiling(s, j, top);
    }
}

/// In a state under the invariant no pending task is due.
pub proof fn lemma_settled_not_ready(s: State)
    requires
        s.wf(),
    ensures
        !s.ready(),
        s.dispatch() == s,
{
    if s.pending.len() > 0 {
        lemma_next_exists(s);
        assert(s.priority(s.pending[s.next()]) <= s.level());
    }
}

/// Priority-ceiling soundness, at an activation: while a claim on a resource
/// is held, a task whose priority does not exceed the ceiling of the resource
/// does not start when it is activated; it is recorded as pending.
pub proof fn law_no_start_under_ceiling(s: State, task: usize, j: int)
    requires
        s.wf(),
        0 <= j < s.claims.len(),
        s.priority(task) <= s.ceilings[s.claims[j].resource as int],
    ensures
        s.activate(task).running == s.running,
        s.activate(task).pending.contains(task),
{
    law_level_covers_ceiling(s, j);
    if !s.pending.contains(task) {
        assert(s.pending.push(task)[s.pending.len() as int] == task);
    }
}

/// Exclusive access: where the executing task may claim or access a resource
/// on which a claim is held, it is the executing task that holds the claim.
pub proof fn law_exclusive_access(s: State, r: usize, j: int)
    requires
        s.wf(),
        s.running.len() > 0,
        s.tasks[s.running.last() as int].declares(r),
        0 <= j < s.claims.len(),
        s.claims[j].resource == r,
    ensures
        s.claims[j].depth + 1 == s.running.len(),
{
    let top = s.running.len() - 1;
    lemma_listed_under_ceiling(s, s.running.last(), r);
    if s.claims[j].depth < top {
        law_preempter_above_ceiling(s, j, top);
    }
}

/// Threshold stack discipline: the release that matches a claim restores the
/// state before the claim, the execution threshold with it.
pub proof fn law_release_restores(s: State, r: usize)
    requires
        s.wf(),
        s.may_claim(r),
    ensures
        s.claim(r).holds_any(),
        s.claim(r).claims.last().prior == s.threshold,
        s.claim(r).release() == s,
{
    let t = s.claim(r);
    assert(t.claims.drop_last() =~= s.claims);
    assert(t.unclaim() =~= s);
    lemma_settled_not_ready(s);
}

/// The state after the executing task has claimed the resources `rs` in
/// turn, each inside the claims before it.
pub open spec fn claim_all(s: State, rs: Seq<usize>) -> State
    decreases rs.len(),
{
    if rs.len() == 0 {
        s
    } else {
        claim_all(s, rs.drop_last()).claim(rs.last())
    }
}

/// Whether the executing task may claim the resources `rs` in turn.
pub open spec fn may_claim_all(s: State, rs: Seq<usize>) -> bool
    decreases rs.len(),
{
    if rs.len() == 0 {
        true
    } else {
        may_claim_all(s, rs.drop_last()) && claim_all(s, rs.drop_last()).may_claim(rs.last())
    }
}

/// The state after `n` releases.
pub open spec fn release_n(s: State, n: nat) -> State
    decreases n,
{
    if n == 0 {
        s
    } else {
        release_n(s.release(), (n - 1) as nat)
    }
}

/// Threshold stack discipline, for nested claims: after any sequence of
/// nested claims, as many releases restore the state before the first claim,
/// and each of them restores the threshold that its claim had found.
pub proof fn law_nested_release_restores(s: State, rs: Seq<usize>)
    requires
        s.wf(),
        may_claim_all(s, rs),
    ensures
        claim_all(s, rs).wf(),
        release_n(claim_all(s, rs), rs.len()) == s,
        rs.len() > 0 ==> claim_all(s, rs).release() == claim_all(s, rs.drop_last()),
    decreases rs.len(),
{
    if rs.len() > 0 {
        let inner = claim_all(s, rs.drop_last());
        law_nested_release_restores(s, rs.drop_last());
        lemma_claim_wf(inner, rs.last());
        law_release_restores(inner, rs.last());
        assert(release_n(claim_all(s, rs), rs.len()) == release_n(inner, (rs.len() - 1) as nat));
    }
}

/// No self-preemption at equal priority: two tasks of the same priority are
/// never on the running stack together, whether or not they share a
/// resource, and no task is on it twice.
pub proof fn law_equal_priority_never_both_running(s: State, i: int, k: int)
    requires
        s.wf(),
        0 <= i < s.running.len(),
        0 <= k < s.running.len(),
        i != k,
    ensures
        s.priority(s.running[i]) != s.priority(s.running[k]),
        s.running[i] != s.running[k],
{
    if i < k {
        assert(s.priority(s.running[i]) < s.priority(s.running[k]));
    } else {
        assert(s.priority(s.running[k]) < s.priority(s.running[i]));
    }
}

/// No self-preemption at equal priority, at an activation: a task whose
/// priority equals that of a running task does not start when it is
/// activated.
pub proof fn law_equal_priority_waits(s: State, task: usize, i: int)
    requires
        s.wf(),
        0 <= i < s.running.len(),
        s.priority(task) == s.priority(s.running[i]),
    ensures
        s.activate(task).running == s.running,
{
    let top = s.running.len() - 1;
    if i < top {
        assert(s.priority(s.running[i]) < s.priority(s.running[top]));
    }
}

/// A pending task of higher priority than the executing task is held back
/// by the threshold alone, and so by a claim that is held.
pub proof fn law_blocked_by_claim_only(s: State, k: int)
    requires
        s.wf(),
        0 <= k < s.pending.len(),
        s.priority(s.pending[k]) > s.top_priority(),
    ensures
        s.threshold >= s.priority(s.pending[k]),
        s.claims.len() > 0,
{
}

/// An event that may happen keeps the invariant.
pub proof fn law_step_keeps_invariant(s: State, event: Event)
    requires
        s.wf(),
        s.allows(event),
    ensures
        s.step(event).wf(),
{
    match event {
        Event::Activate { task } => lemma_activate_wf(s, task),
        Event::Claim { resource } => lemma_claim_wf(s, resource),
        Event::Release => lemma_release_wf(s),
        Event::Complete => lemma_complete_wf(s),
        Event::Write { resource, value } => lemma_store_wf(s, resource, value),
    }
}

/// The invariant holds of every state that events reach from a state in
/// which it holds, and so do the laws that follow from it.
pub proof fn law_reachable_states_keep_invariant(s: State, events: Seq<Event>)
    requires
        s.wf(),
        s.allows_all(events),
    ensures
        s.steps(events).wf(),
    decreases events.len(),
{
    if events.len() > 0 {
        law_reachable_states_keep_invariant(s, events.drop_last());
        law_step_keeps_invariant(s.steps(events.drop_last()), events.last());
    }
}

/// The table of a system under the invariant is the table that its task
/// declarations give.
pub proof fn law_table_is_derived(s: State)
    requires
        s.config_wf(),
    ensures
        s.ceilings == table_of(s.tasks, s.resources.len()),
{
    let t = table_of(s.tasks, s.resources.len());
    assert forall|r: int| 0 <= r < s.ceilings.len() implies s.ceilings[r] == t[r] by {
        law_ceiling_unique(s.tasks, r as usize, s.ceilings[r], s.ceilings[r]);
    }
    assert(s.ceilings =~= t);
}

/// What a claim left behind is zero or the ceiling of a resource claimed no
/// later.
proof fn lemma_raised_is_ceiling(s: State, j: int)
    requires
        s.wf(),
        0 <= j < s.claims.len(),
    ensures
        s.raised(j) == 0 || exists|i: int|
            0 <= i <= j && s.ceilings[(#[trigger] s.claims[i]).resource as int] == s.raised(j),
    decreases j,
{
    if s.raised(j) == s.claims[j].prior {
        if j > 0 {
            lemma_raised_is_ceiling(s, j - 1);
            assert(s.claims[j].prior == s.raised(j - 1));
            if s.raised(j) != 0 {
                let i = choose|i: int|
                    0 <= i <= j - 1 && s.ceilings[(#[trigger] s.claims[i]).resource as int] == s.raised(j - 1);
                assert(s.ceilings[s.claims[i].resource as int] == s.raised(j));
            }
        }
    } else {
        assert(s.ceilings[s.claims[j].resource as int] == s.raised(j));
    }
}

/// The effective ceiling of nested claims: the threshold is zero or the
/// ceiling of a held resource, and the level is the greatest among the
/// priority of the executing task and the ceilings of the held resources.
pub proof fn law_level_is_greatest_ceiling(s: State)
    requires
        s.wf(),
    ensures
        s.threshold == 0 || exists|i: int|
            0 <= i < s.claims.len() && s.ceilings[(#[trigger] s.claims[i]).resource as int] == s.threshold,
        s.level() >= s.top_priority(),
        forall|j: int|
            0 <= j < s.claims.len() ==> s.level() >= s.ceilings[(#[trigger] s.claims[j]).resource as int],
        s.level() == s.top_priority() || exists|i: int|
            0 <= i < s.claims.len() && s.ceilings[(#[trigger] s.claims[i]).resource as int] == s.level(),
{
    if s.claims.len() > 0 {
        let last = s.claims.len() - 1;
        lemma_raised_is_ceiling(s, last);
        if s.threshold != 0 {
            let i = choose|i: int|
                0 <= i <= last && s.ceilings[(#[trigger] s.claims[i]).resource as int] == s.raised(last);
            assert(s.ceilings[s.claims[i].resource as int] == s.threshold);
        }
    }
    assert forall|j: int| 0 <= j < s.claims.len() implies s.level() >= s.ceilings[(
    #[trigger] s.claims[j]).resource as int] by {
        law_level_covers_ceiling(s, j);
    }
}

/// A claim never lowers the threshold.
pub proof fn law_claim_never_lowers(s: State, r: usize)
    requires
        s.wf(),
        s.may_claim(r),
    ensures
        s.claim(r).threshold >= s.threshold,
        s.claim(r).level() >= s.level(),
        s.claim(r).level() >= s.ceilings[r as int],
{
    lemma_claim_wf(s, r);
}

/// The idle context runs only when no task is pending or running: with
/// nothing on the running stack nothing is held and nothing waits.
pub proof fn law_idle_when_nothing_runs(s: State)
    requires
        s.wf(),
        s.running.len() == 0,
    ensures
        s.idle(),
{
    if s.pending.len() > 0 {
        assert(s.priority(s.pending[0]) <= s.level());
        assert(s.tasks[s.pending[0] as int].valid(s.resources.len()));
    }
}

/// The idle context is preempted by every task: an activation in the idle
/// state starts the task at once.
pub proof fn law_idle_is_preempted(s: State, task: usize)
    requires
        s.wf(),
        s.running.len() == 0,
        task < s.tasks.len(),
    ensures
        s.activate(task).current() == Some(task),
{
    law_idle_when_nothing_runs(s);
    assert(s.tasks[task as int].valid(s.resources.len()));
}

} // verus!
