//! The mathematical model of the system: its state as sequences and
//! scalars, the transitions that claims, releases, activations and
//! completions make, and the invariant that every transition keeps.
//!
//! The running activations form a stack: a new one preempts the one below it.
//! The held claims form one stack for the whole system, because an activation
//! releases all its claims before it completes and completes before the
//! activation below it goes on.

use vstd::prelude::*;
use crate::config::{accepted, is_ceiling, Resource, Task};
use crate::value::{Delta, Overflow};

verus! {

/// A held claim: the resource, the position on the running stack of the
/// activation that holds it, and the execution threshold at the moment of the
/// claim, which the matching release restores.
#[derive(Clone, Copy, Debug, PartialEq, Eq)]
pub struct Claim {
    pub resource: usize,
    pub depth: usize,
    pub prior: u8,
}

/// The state of a task, derived from the running stack and the pending list.
#[derive(Clone, Copy, Debug, PartialEq, Eq)]
pub enum TaskState {
    Dormant,
    Pending,
    Running,
}

/// What a claim or a release asks of the interrupt controller.
#[derive(Clone, Copy, Debug, PartialEq, Eq)]
pub enum Masking {
    /// Nothing: the threshold stays as it is.
    Keep,
    /// Mask the interrupts of this priority and below.
    Mask(u8),
    /// Put the mask back to this earlier value.
    Unmask(u8),
}

/// What an event did besides changing the state: the change of the mask to
/// ask of the interrupt controller, and the task that started to execute
/// because of the event, if one did.
#[derive(Clone, Copy, Debug, PartialEq, Eq)]
pub struct Effect {
    pub masking: Masking,
    pub started: Option<usize>,
}

/// An event of a run: an activation that the interrupt controller delivers,
/// or a step of the task that executes.
#[derive(Clone, Copy, Debug, PartialEq, Eq)]
pub enum Event {
    /// The task is activated.
    Activate { task: usize },
    /// The executing task claims the resource.
    Claim { resource: usize },
    /// The executing task releases its newest claim.
    Release,
    /// The executing task returns.
    Complete,
    /// The executing task writes the value to the resource.
    Write { resource: usize, value: u64 },
}

/// The change of the mask that takes the threshold from `before` to `after`.
pub open spec fn masking(before: u8, after: u8) -> Masking {
    if after > before {
        Masking::Mask(after)
    } else if after < before {
        Masking::Unmask(after)
    } else {
        Masking::Keep
    }
}

/// The whole system as a mathematical value.
#[verifier::ext_equal]
pub struct State {
    /// The task declarations.
    pub tasks: Seq<Task>,
    /// The resource declarations.
    pub resources: Seq<Resource>,
    /// The priority ceiling of each resource.
    pub ceilings: Seq<u8>,
    /// The current value of each resource.
    pub values: Seq<u64>,
    /// The execution threshold: no task of this priority or a lower one may
    /// start.
    pub threshold: u8,
    /// The running activations, the preempted ones first and the executing
    /// one last.
    pub running: Seq<usize>,
    /// The held claims, the oldest first.
    pub claims: Seq<Claim>,
    /// The recorded activations that have not started, in order of arrival.
    pub pending: Seq<usize>,
}

/// The threshold after a claim: unchanged where the threshold or the
/// claimant's priority already reaches the ceiling, and the ceiling otherwise.
pub open spec fn grant(threshold: u8, priority: u8, ceiling: u8) -> u8 {
    if threshold >= ceiling || priority >= ceiling {
        threshold
    } else {
        ceiling
    }
}

impl State {
    /// The static priority of `task`.
    pub open spec fn priority(self, task: usize) -> u8 {
        self.tasks[task as int].priority
    }

    /// The task that executes, if any does.
    pub open spec fn current(self) -> Option<usize> {
        if self.running.len() == 0 {
            None
        } else {
            Some(self.running.last())
        }
    }

    /// The priority of the executing task, and zero in the idle context.
    pub open spec fn top_priority(self) -> u8 {
        if self.running.len() == 0 {
            0
        } else {
            self.priority(self.running.last())
        }
    }

    /// The priority that an activation must exceed to start: the greater of
    /// the threshold and the executing task's priority.
    pub open spec fn level(self) -> u8 {
        if self.threshold >= self.top_priority() {
            self.threshold
        } else {
            self.top_priority()
        }
    }

    /// The threshold that claim `j` left behind.
    pub open spec fn raised(self, j: int) -> u8 {
        grant(
            self.claims[j].prior,
            self.priority(self.running[self.claims[j].depth as int]),
            self.ceilings[self.claims[j].resource as int],
        )
    }

    /// Whether the executing task holds a claim on `r`.
    pub open spec fn holds(self, r: usize) -> bool {
        exists|j: int|
            0 <= j < self.claims.len() && (#[trigger] self.claims[j]).resource == r
                && self.claims[j].depth + 1 == self.running.len()
    }

    /// Whether claim `j` is the one that is held on `r`.
    pub open spec fn held_at(self, r: usize, j: int) -> bool {
        0 <= j < self.claims.len() && self.claims[j].resource == r
    }

    /// The task that holds a claim on `r`, if one does.
    pub open spec fn holder(self, r: usize) -> Option<usize> {
        if exists|j: int| self.held_at(r, j) {
            Some(self.running[self.claims[choose|j: int| self.held_at(r, j)].depth as int])
        } else {
            None
        }
    }

    /// Whether the executing task holds any claim.
    pub open spec fn holds_any(self) -> bool {
        self.claims.len() > 0 && self.claims.last().depth + 1 == self.running.len()
    }

    /// Whether the executing task may claim `r`: it lists the resource and
    /// does not hold it already.
    pub open spec fn may_claim(self, r: usize) -> bool {
        &&& self.running.len() > 0
        &&& self.tasks[self.running.last() as int].declares(r)
        &&& !self.holds(r)
    }

    /// Whether the executing task may read and write `r`: it lists the
    /// resource, and no task that lists it can preempt.
    pub open spec fn may_access(self, r: usize) -> bool {
        &&& self.running.len() > 0
        &&& r < self.ceilings.len()
        &&& self.tasks[self.running.last() as int].declares(r)
        &&& self.level() >= self.ceilings[r as int]
    }

    /// Whether the system is idle: nothing runs, nothing is held, nothing
    /// waits.
    pub open spec fn idle(self) -> bool {
        &&& self.running.len() == 0
        &&& self.claims.len() == 0
        &&& self.pending.len() == 0
        &&& self.threshold == 0
    }

    /// The state of `task`.
    pub open spec fn task_state(self, task: usize) -> TaskState {
        if self.running.contains(task) {
            TaskState::Running
        } else if self.pending.contains(task) {
            TaskState::Pending
        } else {
            TaskState::Dormant
        }
    }

    // ----- the invariant -----

    /// The declarations are accepted, the table holds the ceilings they give,
    /// and every value fits its resource's width.
    pub open spec fn config_wf(self) -> bool {
        &&& accepted(self.tasks, self.resources)
        &&& self.ceilings.len() == self.resources.len()
        &&& forall|r: int|
            0 <= r < self.ceilings.len() ==> is_ceiling(self.tasks, r as usize, #[trigger] self.ceilings[r])
        &&& self.values.len() == self.resources.len()
        &&& forall|r: int|
            0 <= r < self.values.len() ==> self.resources[r].width.holds(#[trigger] self.values[r])
    }

    /// The running stack holds declared tasks, each of strictly higher
    /// priority than the one below it, so that a priority exceeds the number
    /// of activations below its own.
    pub open spec fn running_wf(self) -> bool {
        &&& forall|i: int| 0 <= i < self.running.len() ==> (#[trigger] self.running[i]) < self.tasks.len()
        &&& forall|i: int| 0 <= i < self.running.len() ==> i < self.priority(#[trigger] self.running[i])
        &&& forall|i: int, k: int|
            0 <= i < k < self.running.len() ==> self.priority(#[trigger] self.running[i]) < self.priority(
                #[trigger] self.running[k],
            )
    }

    /// Every claim is held by a running activation that lists the resource;
    /// claims lie in the order of their holders; no resource is held twice.
    pub open spec fn claims_wf(self) -> bool {
        &&& forall|j: int|
            0 <= j < self.claims.len() ==> {
                &&& (#[trigger] self.claims[j]).resource < self.resources.len()
                &&& self.claims[j].depth < self.running.len()
                &&& self.tasks[self.running[self.claims[j].depth as int] as int].declares(
                    self.claims[j].resource,
                )
            }
        &&& forall|j: int, k: int|
            0 <= j < k < self.claims.len() ==> {
                &&& (#[trigger] self.claims[j]).depth <= (#[trigger] self.claims[k]).depth
                &&& self.claims[j].resource != self.claims[k].resource
            }
    }

    /// The threshold is zero with no claim held; otherwise it is what the
    /// newest claim left behind, and each claim recorded what the one before
    /// it left behind.
    pub open spec fn threshold_wf(self) -> bool {
        &&& self.claims.len() == 0 ==> self.threshold == 0
        &&& self.claims.len() > 0 ==> self.claims[0].prior == 0 && self.threshold == self.raised(
            self.claims.len() - 1,
        )
        &&& forall|j: int|
            0 < j < self.claims.len() ==> (#[trigger] self.claims[j]).prior == self.raised(j - 1)
        &&& forall|j: int, k: int|
            0 <= j < k < self.claims.len() ==> (#[trigger] self.claims[j]).prior <= (
            #[trigger] self.claims[k]).prior
    }

    /// Each running activation started above the threshold that the claims
    /// held below it had left behind.
    pub open spec fn preemption_wf(self) -> bool {
        forall|i: int, j: int|
            0 <= i < self.running.len() && 0 <= j < self.claims.len() && (#[trigger] self.claims[j]).depth
                < i ==> self.raised(j) < self.priority(#[trigger] self.running[i])
    }

    /// The pending list holds declared tasks, none twice.
    pub open spec fn pending_wf(self) -> bool {
        &&& forall|k: int| 0 <= k < self.pending.len() ==> (#[trigger] self.pending[k]) < self.tasks.len()
        &&& forall|k: int, m: int|
            0 <= k < m < self.pending.len() ==> (#[trigger] self.pending[k]) != (#[trigger] self.pending[m])
    }

    /// No pending task could start now: none has a priority above the level.
    pub open spec fn settled(self) -> bool {
        forall|k: int|
            0 <= k < self.pending.len() ==> self.priority(#[trigger] self.pending[k]) <= self.level()
    }

    /// The invariant between a release or a completion and the start of the
    /// pending task that it lets through.
    pub open spec fn inner_wf(self) -> bool {
        &&& self.config_wf()
        &&& self.running_wf()
        &&& self.claims_wf()
        &&& self.threshold_wf()
        &&& self.preemption_wf()
        &&& self.pending_wf()
    }

    /// The invariant of the system.
    pub open spec fn wf(self) -> bool {
        &&& self.inner_wf()
        &&& self.settled()
    }

    // ----- the transitions -----

    /// The state after the executing task claims `r`.
    pub open spec fn claim(self, r: usize) -> State {
        State {
            threshold: grant(self.threshold, self.top_priority(), self.ceilings[r as int]),
            claims: self.claims.push(
                Claim { resource: r, depth: (self.running.len() - 1) as usize, prior: self.threshold },
            ),
            ..self
        }
    }

    /// The state after the newest claim is given up, before any pending task
    /// starts.
    pub open spec fn unclaim(self) -> State {
        State { threshold: self.claims.last().prior, claims: self.claims.drop_last(), ..self }
    }

    /// The state after the executing activation has ended, before any pending
    /// task starts.
    pub open spec fn unwind(self) -> State {
        State { running: self.running.drop_last(), ..self }
    }

    /// The state after `task` has started to execute, preempting what ran.
    pub open spec fn start(self, task: usize) -> State {
        State { running: self.running.push(task), ..self }
    }

    /// `k` is the position in the pending list of the task to start next: the
    /// one of highest priority, and among equals the one that arrived first.
    pub open spec fn is_next(self, k: int) -> bool {
        &&& 0 <= k < self.pending.len()
        &&& forall|m: int|
            0 <= m < self.pending.len() ==> self.priority(#[trigger] self.pending[m]) <= self.priority(
                self.pending[k],
            )
        &&& forall|m: int|
            0 <= m < k ==> self.priority(#[trigger] self.pending[m]) < self.priority(self.pending[k])
    }

    /// The position in the pending list of the task to start next.
    pub open spec fn next(self) -> int {
        choose|k: int| self.is_next(k)
    }

    /// Whether a pending task can start now.
    pub open spec fn ready(self) -> bool {
        self.pending.len() > 0 && self.priority(self.pending[self.next()]) > self.level()
    }

    /// The pending task that can start now, if there is one.
    pub open spec fn due(self) -> Option<usize> {
        if self.ready() {
            Some(self.pending[self.next()])
        } else {
            None
        }
    }

    /// The state after the pending task that can start, if there is one, has
    /// started.
    pub open spec fn dispatch(self) -> State {
        if self.ready() {
            State { pending: self.pending.remove(self.next()), ..self.start(self.pending[self.next()]) }
        } else {
            self
        }
    }

    /// The state after the executing task releases its newest claim.
    pub open spec fn release(self) -> State {
        self.unclaim().dispatch()
    }

    /// The state after the executing task has returned.
    pub open spec fn complete(self) -> State {
        self.unwind().dispatch()
    }

    /// The state after `task` is activated: it starts at once where its
    /// priority exceeds the level, and is recorded as pending otherwise.
    pub open spec fn activate(self, task: usize) -> State {
        if self.priority(task) > self.level() {
            self.start(task)
        } else if self.pending.contains(task) {
            self
        } else {
            State { pending: self.pending.push(task), ..self }
        }
    }

    /// The state after resource `r` is given the value `v`.
    pub open spec fn store(self, r: usize, v: u64) -> State {
        State { values: self.values.update(r as int, v), ..self }
    }

    /// Whether `event` may happen: an activation names a declared task; a
    /// claim is one that the executing task may make; a release has a claim
    /// of the executing task to give up; a task returns with no claim held;
    /// a write goes to a resource that the executing task may access, with a
    /// value of the resource's width.
    pub open spec fn allows(self, event: Event) -> bool {
        match event {
            Event::Activate { task } => task < self.tasks.len(),
            Event::Claim { resource } => self.may_claim(resource),
            Event::Release => self.holds_any(),
            Event::Complete => self.running.len() > 0 && !self.holds_any(),
            Event::Write { resource, value } => self.may_access(resource)
                && self.resources[resource as int].width.holds(value),
        }
    }

    /// The state after `event`.
    pub open spec fn step(self, event: Event) -> State {
        match event {
            Event::Activate { task } => self.activate(task),
            Event::Claim { resource } => self.claim(resource),
            Event::Release => self.release(),
            Event::Complete => self.complete(),
            Event::Write { resource, value } => self.store(resource, value),
        }
    }

    /// What `event` does besides changing the state.
    pub open spec fn effect(self, event: Event) -> Effect {
        match event {
            Event::Activate { task } => Effect {
                masking: Masking::Keep,
                started: if self.priority(task) > self.level() {
                    Some(task)
                } else {
                    None
                },
            },
            Event::Claim { resource } => Effect {
                masking: masking(self.threshold, self.claim(resource).threshold),
                started: None,
            },
            Event::Release => Effect {
                masking: masking(self.threshold, self.unclaim().threshold),
                started: self.unclaim().due(),
            },
            Event::Complete => Effect { masking: Masking::Keep, started: self.unwind().due() },
            Event::Write { resource, value } => Effect { masking: Masking::Keep, started: None },
        }
    }

    /// Whether the events may happen one after the other.
    pub open spec fn allows_all(self, events: Seq<Event>) -> bool
        decreases events.len(),
    {
        if events.len() == 0 {
            true
        } else {
            self.allows_all(events.drop_last()) && self.steps(events.drop_last()).allows(events.last())
        }
    }

    /// The state after the events.
    pub open spec fn steps(self, events: Seq<Event>) -> State
        decreases events.len(),
    {
        if events.len() == 0 {
            self
        } else {
            self.steps(events.drop_last()).step(events.last())
        }
    }

    /// Whether `values` gives every resource a value within its width.
    pub open spec fn admits(self, values: Seq<u64>) -> bool {
        &&& values.len() == self.resources.len()
        &&& forall|r: int| 0 <= r < values.len() ==> self.resources[r].width.holds(#[trigger] values[r])
    }

    /// The state with the resources set to `values`.
    pub open spec fn assign(self, values: Seq<u64>) -> State {
        State { values, ..self }
    }

    /// What applying `delta` under `mode` makes of the value of `r`.
    pub open spec fn applied(self, r: usize, delta: Delta, mode: Overflow) -> Option<u64> {
        self.resources[r as int].width.apply(self.values[r as int], delta, mode)
    }
}

} // verus!
