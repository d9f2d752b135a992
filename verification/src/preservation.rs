//! The invariant is kept: every transition of the model takes a state under
//! the invariant to a state under the invariant.

use vstd::prelude::*;
use crate::config::is_ceiling;
use crate::model::{Claim, State};

verus! {

/// A task that lists a resource has at most the resource's ceiling as its
/// priority, and the resource is a declared one.
pub proof fn lemma_listed_under_ceiling(s: State, task: usize, r: usize)
    requires
        s.config_wf(),
        task < s.tasks.len(),
        s.tasks[task as int].declares(r),
    ensures
        r < s.ceilings.len(),
        s.priority(task) <= s.ceilings[r as int],
        s.priority(task) >= 1,
{
    let list = s.tasks[task as int].resources@;
    let k = choose|k: int| 0 <= k < list.len() && list[k] == r;
    assert(list[k] == r);
    assert(s.tasks[task as int].valid(s.resources.len()));
    assert(is_ceiling(s.tasks, r, s.ceilings[r as int]));
}

/// What a claim left behind is at least what it found, and at most the
/// present threshold.
pub proof fn lemma_raised_bounds(s: State, j: int)
    requires
        s.threshold_wf(),
        0 <= j < s.claims.len(),
    ensures
        s.claims[j].prior <= s.raised(j) <= s.threshold,
{
    let last = s.claims.len() - 1;
    if j < last {
        assert(s.claims[j + 1].prior == s.raised(j));
        assert(s.claims[j + 1].prior <= s.claims[last].prior || j + 1 == last);
        assert(s.claims[last].prior <= s.raised(last));
    }
}

/// The same, between a release and the start that follows it.
pub proof fn lemma_inner_preempter_above_ceiling(s: State, j: int, i: int)
    requires
        s.inner_wf(),
        0 <= j < s.claims.len(),
        s.claims[j].depth < i < s.running.len(),
    ensures
        s.priority(s.running[i]) > s.ceilings[s.claims[j].resource as int],
{
    let c = s.claims[j];
    let owner = s.running[c.depth as int];
    assert(s.raised(j) < s.priority(s.running[i]));
    assert(s.priority(owner) < s.priority(s.running[i]));
}

/// The executing task holds no claim on a resource that it may claim, and
/// neither does any activation below it.
proof fn lemma_claimable_not_held(s: State, r: usize, j: int)
    requires
        s.wf(),
        s.may_claim(r),
        0 <= j < s.claims.len(),
    ensures
        s.claims[j].resource != r,
{
    let top = s.running.len() - 1;
    lemma_listed_under_ceiling(s, s.running.last(), r);
    if s.claims[j].depth < top {
        lemma_inner_preempter_above_ceiling(s, j, top);
    }
}

/// What the claims that were held before a claim left behind stays as it was.
proof fn lemma_claim_keeps_raised(s: State, r: usize, j: int)
    requires
        s.running.len() > 0,
        0 <= j < s.claims.len(),
    ensures
        s.claim(r).claims[j] == s.claims[j],
        s.claim(r).raised(j) == s.raised(j),
{
}

/// A claim keeps the claims in order, each held by a running activation that
/// lists its resource, and no resource held twice.
proof fn lemma_claim_claims_wf(s: State, r: usize)
    requires
        s.wf(),
        s.may_claim(r),
    ensures
        s.claim(r).claims_wf(),
{
    let t = s.claim(r);
    let n = s.claims.len() as int;
    lemma_listed_under_ceiling(s, s.running.last(), r);
    assert forall|j: int| 0 <= j < t.claims.len() implies {
        &&& (#[trigger] t.claims[j]).resource < t.resources.len()
        &&& t.claims[j].depth < t.running.len()
        &&& t.tasks[t.running[t.claims[j].depth as int] as int].declares(t.claims[j].resource)
    } by {
        if j < n {
            assert(t.claims[j] == s.claims[j]);
        }
    }
    assert forall|j: int, k: int| 0 <= j < k < t.claims.len() implies {
        &&& (#[trigger] t.claims[j]).depth <= (#[trigger] t.claims[k]).depth
        &&& t.claims[j].resource != t.claims[k].resource
    } by {
        assert(t.claims[j] == s.claims[j]);
        if k < n {
            assert(t.claims[k] == s.claims[k]);
        } else {
            lemma_claimable_not_held(s, r, j);
        }
    }
}

/// A claim keeps the chain of thresholds, and does not lower the threshold.
proof fn lemma_claim_threshold_wf(s: State, r: usize)
    requires
        s.wf(),
        s.may_claim(r),
    ensures
        s.claim(r).threshold_wf(),
        s.claim(r).threshold >= s.threshold,
{
    let t = s.claim(r);
    let n = s.claims.len() as int;
    assert(t.raised(n) == t.threshold);
    if n > 0 {
        lemma_raised_bounds(s, n - 1);
        lemma_claim_keeps_raised(s, r, 0);
    }
    assert forall|j: int| 0 < j < t.claims.len() implies (#[trigger] t.claims[j]).prior == t.raised(
        j - 1,
    ) by {
        lemma_claim_keeps_raised(s, r, j - 1);
        if j < n {
            lemma_claim_keeps_raised(s, r, j);
        }
    }
    assert forall|j: int, k: int| 0 <= j < k < t.claims.len() implies (#[trigger] t.claims[j]).prior <= (
    #[trigger] t.claims[k]).prior by {
        lemma_claim_keeps_raised(s, r, j);
        lemma_raised_bounds(s, j);
        if k < n {
            lemma_claim_keeps_raised(s, r, k);
        }
    }
}

/// A claim leaves every running activation above what the claims below it
/// left behind.
proof fn lemma_claim_preemption_wf(s: State, r: usize)
    requires
        s.wf(),
        s.may_claim(r),
    ensures
        s.claim(r).preemption_wf(),
{
    let t = s.claim(r);
    let n = s.claims.len() as int;
    assert forall|i: int, j: int|
        0 <= i < t.running.len() && 0 <= j < t.claims.len() && (#[trigger] t.claims[j]).depth
            < i implies t.raised(j) < t.priority(#[trigger] t.running[i]) by {
        if j < n {
            lemma_claim_keeps_raised(s, r, j);
        }
    }
}

/// A claim keeps the invariant.
pub proof fn lemma_claim_wf(s: State, r: usize)
    requires
        s.wf(),
        s.may_claim(r),
    ensures
        s.claim(r).wf(),
        r < s.ceilings.len(),
        s.claim(r).threshold >= s.threshold,
{
    lemma_listed_under_ceiling(s, s.running.last(), r);
    lemma_claim_claims_wf(s, r);
    lemma_claim_threshold_wf(s, r);
    lemma_claim_preemption_wf(s, r);
    let t = s.claim(r);
    assert(t.level() >= s.level());
    assert(t.pending == s.pending);
}

/// Giving up the newest claim keeps the invariant but for the start of a
/// pending task, which may now be due.
pub proof fn lemma_unclaim_wf(s: State)
    requires
        s.wf(),
        s.claims.len() > 0,
    ensures
        s.unclaim().inner_wf(),
        s.unclaim().threshold <= s.threshold,
{
    let t = s.unclaim();
    let n = t.claims.len() as int;
    assert forall|j: int| 0 <= j < n implies t.claims[j] == s.claims[j] && t.raised(j) == s.raised(j) by {}
    lemma_raised_bounds(s, n);
}

/// The end of the executing activation keeps the invariant but for the start
/// of a pending task, which may now be due.
pub proof fn lemma_unwind_wf(s: State)
    requires
        s.wf(),
        s.running.len() > 0,
        !s.holds_any(),
    ensures
        s.unwind().inner_wf(),
{
    let t = s.unwind();
    let top = s.running.len() - 1;
    assert forall|j: int| 0 <= j < s.claims.len() implies s.claims[j].depth < top by {
        let last = s.claims.len() - 1;
        assert(s.claims[j].depth <= s.claims[last].depth);
    }
    assert forall|i: int| 0 <= i < t.running.len() implies t.running[i] == s.running[i] by {}
    assert forall|j: int| 0 <= j < s.claims.len() implies t.raised(j) == s.raised(j) by {}
}

/// A task that starts above the level keeps the invariant, but for what the
/// pending list then holds.
pub proof fn lemma_start_wf(s: State, task: usize)
    requires
        s.inner_wf(),
        task < s.tasks.len(),
        s.priority(task) > s.level(),
    ensures
        s.start(task).inner_wf(),
        s.start(task).level() == s.priority(task),
        s.start(task).running.len() <= 255,
{
    let t = s.start(task);
    let n = s.running.len() as int;
    assert forall|i: int| 0 <= i < n implies t.running[i] == s.running[i] by {}
    assert(t.running[n] == task);
    if n > 0 {
        assert(n - 1 < s.priority(s.running[n - 1]));
    }
    assert forall|i: int, k: int| 0 <= i < k < t.running.len() implies t.priority(
        #[trigger] t.running[i],
    ) < t.priority(#[trigger] t.running[k]) by {
        if k == n && i < n - 1 {
            assert(s.priority(s.running[i]) < s.priority(s.running[n - 1]));
        }
    }
    assert(t.running_wf());
    assert forall|j: int| 0 <= j < t.claims.len() implies t.raised(j) == s.raised(j) && t.raised(j)
        <= s.threshold by {
        lemma_raised_bounds(s, j);
    }
    assert(t.claims_wf());
    assert(t.threshold_wf());
    assert forall|i: int, j: int|
        0 <= i < t.running.len() && 0 <= j < t.claims.len() && (#[trigger] t.claims[j]).depth
            < i implies t.raised(j) < t.priority(#[trigger] t.running[i]) by {
        lemma_raised_bounds(s, j);
    }
}

/// The pending list has a task to start next, unless it is empty.
pub proof fn lemma_next_exists(s: State)
    requires
        s.pending.len() > 0,
    ensures
        s.is_next(s.next()),
{
    let k = lemma_next_among(s, s.pending.len() as int);
    assert(s.is_next(k));
}

/// The task to start next among the first `n` pending ones.
proof fn lemma_next_among(s: State, n: int) -> (k: int)
    requires
        0 < n <= s.pending.len(),
    ensures
        0 <= k < n,
        forall|m: int| 0 <= m < n ==> s.priority(#[trigger] s.pending[m]) <= s.priority(s.pending[k]),
        forall|m: int| 0 <= m < k ==> s.priority(#[trigger] s.pending[m]) < s.priority(s.pending[k]),
    decreases n,
{
    if n == 1 {
        0
    } else {
        let b = lemma_next_among(s, n - 1);
        if s.priority(s.pending[n - 1]) > s.priority(s.pending[b]) {
            n - 1
        } else {
            b
        }
    }
}

/// Only one position in the pending list holds the task to start next.
pub proof fn lemma_next_unique(s: State, k: int)
    requires
        s.is_next(k),
    ensures
        s.next() == k,
{
    let c = s.next();
    assert(s.is_next(c));
    if c < k {
        assert(s.priority(s.pending[c]) < s.priority(s.pending[k]));
    } else if k < c {
        assert(s.priority(s.pending[k]) < s.priority(s.pending[c]));
    }
}

/// The start of the pending task that is due, if one is, restores the
/// invariant.
pub proof fn lemma_dispatch_wf(s: State)
    requires
        s.inner_wf(),
    ensures
        s.dispatch().wf(),
{
    let t = s.dispatch();
    if s.pending.len() > 0 {
        lemma_next_exists(s);
        let k = s.next();
        let task = s.pending[k];
        if s.ready() {
            let u = s.start(task);
            lemma_start_wf(s, task);
            assert(t.running == u.running);
            assert(t.pending == s.pending.remove(k));
            assert forall|m: int| 0 <= m < t.pending.len() implies #[trigger] t.pending[m] == s.pending[if m
                < k {
                m
            } else {
                m + 1
            }] by {}
            assert(t.level() == u.level());
            assert forall|j: int| 0 <= j < t.claims.len() implies t.raised(j) == u.raised(j) by {}
            assert(t.pending_wf());
            assert(t.settled()) by {
                assert forall|m: int| 0 <= m < t.pending.len() implies t.priority(#[trigger] t.pending[m])
                    <= t.level() by {
                    let m0 = if m < k { m } else { m + 1 };
                    assert(t.pending[m] == s.pending[m0]);
                }
            }
        } else {
            assert forall|m: int| 0 <= m < s.pending.len() implies s.priority(#[trigger] s.pending[m])
                <= s.level() by {}
        }
    }
}

/// A release keeps the invariant.
pub proof fn lemma_release_wf(s: State)
    requires
        s.wf(),
        s.claims.len() > 0,
    ensures
        s.release().wf(),
{
    lemma_unclaim_wf(s);
    lemma_dispatch_wf(s.unclaim());
}

/// A completion keeps the invariant.
pub proof fn lemma_complete_wf(s: State)
    requires
        s.wf(),
        s.running.len() > 0,
        !s.holds_any(),
    ensures
        s.complete().wf(),
{
    lemma_unwind_wf(s);
    lemma_dispatch_wf(s.unwind());
}

/// An activation keeps the invariant.
pub proof fn lemma_activate_wf(s: State, task: usize)
    requires
        s.wf(),
        task < s.tasks.len(),
    ensures
        s.activate(task).wf(),
{
    let t = s.activate(task);
    if s.priority(task) > s.level() {
        lemma_start_wf(s, task);
    } else if !s.pending.contains(task) {
        let n = s.pending.len() as int;
        assert forall|m: int| 0 <= m < n implies t.pending[m] == s.pending[m] by {}
        assert(t.pending[n] == task);
        assert forall|j: int| 0 <= j < t.claims.len() implies t.raised(j) == s.raised(j) by {}
    }
}

/// A new value within the width of its resource keeps the invariant.
pub proof fn lemma_store_wf(s: State, r: usize, v: u64)
    requires
        s.wf(),
        r < s.values.len(),
        s.resources[r as int].width.holds(v),
    ensures
        s.store(r, v).wf(),
{
    let t = s.store(r, v);
    assert forall|j: int| 0 <= j < t.claims.len() implies t.raised(j) == s.raised(j) by {}
}

/// New values within the widths of their resources keep the invariant.
pub proof fn lemma_assign_wf(s: State, values: Seq<u64>)
    requires
        s.wf(),
        s.admits(values),
    ensures
        s.assign(values).wf(),
{
    let t = s.assign(values);
    assert forall|j: int| 0 <= j < t.claims.len() implies t.raised(j) == s.raised(j) by {}
}

} // verus!
