//! The executable system: the resource descriptor table, the execution
//! threshold with its lock manager, and the dispatch table with its
//! scheduler, behind one value whose view is the model's state.
//!
//! The caller drives it with the events of a run: activations as the
//! interrupt controller delivers them, and the claims, releases and return of
//! the task that executes. Each operation says which task executes next and
//! what the interrupt controller is to mask.

use vstd::prelude::*;
use crate::config::{ceilings, first_fault, resource_ok, table_of, ConfigError, Resource, Task};
use crate::model::{masking, Claim, Effect, Event, Masking, State, TaskState};
use crate::preservation::{
    lemma_activate_wf, lemma_assign_wf, lemma_claim_wf, lemma_dispatch_wf, lemma_next_unique, lemma_store_wf,
    lemma_unclaim_wf, lemma_unwind_wf,
};
use crate::value::{Delta, Overflow};

verus! {

/// A configured system and its run-time state.
pub struct System {
    tasks: Vec<Task>,
    resources: Vec<Resource>,
    ceilings: Vec<u8>,
    values: Vec<u64>,
    threshold: u8,
    running: Vec<usize>,
    claims: Vec<Claim>,
    pending: Vec<usize>,
}

impl View for System {
    type V = State;

    closed spec fn view(&self) -> State {
        State {
            tasks: self.tasks@,
            resources: self.resources@,
            ceilings: self.ceilings@,
            values: self.values@,
            threshold: self.threshold,
            running: self.running@,
            claims: self.claims@,
            pending: self.pending@,
        }
    }
}

/// The values that the resources start with.
pub open spec fn initial_values(resources: Seq<Resource>) -> Seq<u64> {
    Seq::new(resources.len(), |r: int| resources[r].initial)
}

impl System {
    /// The invariant of the system.
    pub open spec fn wf(&self) -> bool {
        self@.wf()
    }

    /// Builds the system from its declarations: checks them, computes the
    /// table of priority ceilings, and starts idle with every resource at its
    /// initial value.
    pub fn new(tasks: Vec<Task>, resources: Vec<Resource>) -> (result: Result<System, ConfigError>)
        ensures
            match result {
                Ok(system) => {
                    &&& system.wf()
                    &&& system@.idle()
                    &&& system@.tasks == tasks@
                    &&& system@.resources == resources@
                    &&& system@.ceilings == table_of(tasks@, resources@.len())
                    &&& system@.values == initial_values(resources@)
                },
                Err(e) => first_fault(tasks@, resources@, e),
            },
    {
        let table = match ceilings(&tasks, &resources) {
            Ok(table) => table,
            Err(e) => {
                return Err(e);
            },
        };
        let mut values: Vec<u64> = Vec::new();
        let mut r: usize = 0;
        while r < resources.len()
            invariant
                r <= resources.len(),
                values@.len() == r,
                forall|i: int| 0 <= i < r ==> values@[i] == resources@[i].initial,
            decreases resources.len() - r,
        {
            values.push(resources[r].initial);
            r += 1;
        }
        assert(values@ =~= initial_values(resources@));
        let system = System {
            tasks,
            resources,
            ceilings: table,
            values,
            threshold: 0,
            running: Vec::new(),
            claims: Vec::new(),
            pending: Vec::new(),
        };
        proof {
            let s = system@;
            assert forall|i: int| 0 <= i < s.values.len() implies s.resources[i].width.holds(
                #[trigger] s.values[i],
            ) by {
                assert(resource_ok(s.tasks, s.resources, i));
            }
            assert(s.config_wf());
            assert(s.wf());
        }
        Ok(system)
    }

    /// The number of tasks.
    pub fn task_count(&self) -> (n: usize)
        ensures
            n == self@.tasks.len(),
    {
        self.tasks.len()
    }

    /// The number of resources.
    pub fn resource_count(&self) -> (n: usize)
        requires
            self.wf(),
        ensures
            n == self@.resources.len(),
            n == self@.ceilings.len(),
            n == self@.values.len(),
    {
        self.resources.len()
    }

    /// The declaration of `task`.
    pub fn task(&self, task: usize) -> (t: &Task)
        requires
            task < self@.tasks.len(),
        ensures
            *t == self@.tasks[task as int],
    {
        &self.tasks[task]
    }

    /// The declaration of resource `r`.
    pub fn resource(&self, r: usize) -> (d: Resource)
        requires
            r < self@.resources.len(),
        ensures
            d == self@.resources[r as int],
    {
        self.resources[r]
    }

    /// The priority ceiling of resource `r`.
    pub fn ceiling(&self, r: usize) -> (c: u8)
        requires
            r < self@.ceilings.len(),
        ensures
            c == self@.ceilings[r as int],
    {
        self.ceilings[r]
    }

    /// The current value of resource `r`, for inspection.
    pub fn value(&self, r: usize) -> (v: u64)
        requires
            r < self@.values.len(),
        ensures
            v == self@.values[r as int],
    {
        self.values[r]
    }

    /// The execution threshold.
    pub fn threshold(&self) -> (t: u8)
        ensures
            t == self@.threshold,
    {
        self.threshold
    }

    /// The task that executes, if any does.
    pub fn current(&self) -> (t: Option<usize>)
        ensures
            t == self@.current(),
    {
        if self.running.len() == 0 {
            None
        } else {
            Some(self.running[self.running.len() - 1])
        }
    }

    /// The priority that an activation must exceed to start.
    pub fn level(&self) -> (l: u8)
        requires
            self.wf(),
        ensures
            l == self@.level(),
    {
        let top: u8 = if self.running.len() == 0 {
            0
        } else {
            assert(self@.running[self.running.len() - 1] < self@.tasks.len());
            self.tasks[self.running[self.running.len() - 1]].priority
        };
        if self.threshold >= top {
            self.threshold
        } else {
            top
        }
    }

    /// Whether nothing runs, nothing is held and nothing waits.
    pub fn is_idle(&self) -> (b: bool)
        requires
            self.wf(),
        ensures
            b == self@.idle(),
    {
        self.running.len() == 0 && self.pending.len() == 0
    }

    /// The state of `task`: running, pending or dormant.
    pub fn task_state(&self, task: usize) -> (state: TaskState)
        ensures
            state == self@.task_state(task),
    {
        if contains(&self.running, task) {
            TaskState::Running
        } else if contains(&self.pending, task) {
            TaskState::Pending
        } else {
            TaskState::Dormant
        }
    }

    // ----- the lock manager -----

    /// Whether the executing task holds a claim on `r`.
    pub fn holds(&self, r: usize) -> (b: bool)
        ensures
            b == self@.holds(r),
    {
        let n: usize = self.running.len();
        if n == 0 {
            return false;
        }
        let mut j: usize = 0;
        while j < self.claims.len()
            invariant
                j <= self.claims.len(),
                n == self.running@.len(),
                n > 0,
                forall|i: int|
                    0 <= i < j ==> !((#[trigger] self.claims@[i]).resource == r && self.claims@[i].depth + 1
                        == n),
            decreases self.claims.len() - j,
        {
            if self.claims[j].resource == r && self.claims[j].depth == n - 1 {
                assert(self@.claims[j as int].resource == r);
                return true;
            }
            j += 1;
        }
        false
    }

    /// The task that holds a claim on `r`, if one does.
    pub fn holder(&self, r: usize) -> (task: Option<usize>)
        requires
            self.wf(),
        ensures
            task == self@.holder(r),
    {
        let mut j: usize = 0;
        while j < self.claims.len()
            invariant
                j <= self.claims.len(),
                self.wf(),
                forall|i: int| 0 <= i < j ==> !self@.held_at(r, i),
            decreases self.claims.len() - j,
        {
            if self.claims[j].resource == r {
                proof {
                    let s = self@;
                    assert(s.held_at(r, j as int));
                    let c = choose|c: int| s.held_at(r, c);
                    assert(s.held_at(r, c));
                    if c != j {
                        if c < j {
                            assert(s.claims[c].resource != s.claims[j as int].resource);
                        } else {
                            assert(s.claims[j as int].resource != s.claims[c].resource);
                        }
                    }
                    assert(s.claims[j as int].depth < s.running.len());
                }
                return Some(self.running[self.claims[j].depth]);
            }
            j += 1;
        }
        None
    }

    /// Whether the executing task holds any claim.
    pub fn holds_any(&self) -> (b: bool)
        ensures
            b == self@.holds_any(),
    {
        let n: usize = self.claims.len();
        let depth: usize = self.running.len();
        n > 0 && depth > 0 && self.claims[n - 1].depth == depth - 1
    }

    /// Whether the executing task may claim `r`.
    pub fn may_claim(&self, r: usize) -> (b: bool)
        requires
            self.wf(),
        ensures
            b == self@.may_claim(r),
    {
        let n: usize = self.running.len();
        if n == 0 {
            return false;
        }
        assert(self@.running[n - 1] < self@.tasks.len());
        self.tasks[self.running[n - 1]].declares(r) && !self.holds(r)
    }

    /// Whether the executing task may read and write `r`.
    pub fn may_access(&self, r: usize) -> (b: bool)
        requires
            self.wf(),
        ensures
            b == self@.may_access(r),
    {
        let n: usize = self.running.len();
        if n == 0 || r >= self.ceilings.len() {
            return false;
        }
        assert(self@.running[n - 1] < self@.tasks.len());
        self.tasks[self.running[n - 1]].declares(r) && self.level() >= self.ceilings[r]
    }

    /// Claims resource `r` for the executing task. Where the task's priority
    /// or the threshold already reaches the ceiling of `r`, access is granted
    /// with no change; otherwise the threshold is raised to the ceiling, and
    /// the interrupt controller is to mask up to it.
    pub fn claim(&mut self, r: usize) -> (m: Masking)
        requires
            old(self).wf(),
            old(self)@.may_claim(r),
        ensures
            final(self).wf(),
            final(self)@ == old(self)@.claim(r),
            m == masking(old(self)@.threshold, final(self)@.threshold),
    {
        proof {
            lemma_claim_wf(self@, r);
        }
        let n: usize = self.running.len();
        assert(self@.running[n - 1] < self@.tasks.len());
        let priority: u8 = self.tasks[self.running[n - 1]].priority;
        let ceiling: u8 = self.ceilings[r];
        let prior: u8 = self.threshold;
        self.claims.push(Claim { resource: r, depth: n - 1, prior });
        let m = if prior >= ceiling || priority >= ceiling {
            Masking::Keep
        } else {
            self.threshold = ceiling;
            Masking::Mask(ceiling)
        };
        assert(self@ =~= old(self)@.claim(r));
        m
    }

    /// Releases the newest claim of the executing task: the threshold goes
    /// back to the value recorded at the claim, and the pending task that
    /// this lets through, if any, starts.
    pub fn release(&mut self) -> (out: Effect)
        requires
            old(self).wf(),
            old(self)@.holds_any(),
        ensures
            final(self).wf(),
            final(self)@ == old(self)@.release(),
            final(self)@.threshold == old(self)@.claims.last().prior,
            out.masking == masking(old(self)@.threshold, final(self)@.threshold),
            out.started == old(self)@.unclaim().due(),
    {
        proof {
            lemma_unclaim_wf(self@);
        }
        let before: u8 = self.threshold;
        let n: usize = self.claims.len();
        let prior: u8 = self.claims[n - 1].prior;
        self.claims.pop();
        self.threshold = prior;
        assert(self@ =~= old(self)@.unclaim());
        let m = if prior < before {
            Masking::Unmask(prior)
        } else {
            Masking::Keep
        };
        let started = self.dispatch();
        Effect { masking: m, started }
    }

    /// Runs `section` as a critical section on resource `r`: claims the
    /// resource for the executing task, hands the value of the resource to
    /// `section`, stores what it returns, reduced to the width of the
    /// resource, and releases the claim. The threshold is afterwards what it
    /// was before. Returns what `section` returned and the pending task that
    /// the release let through, if any.
    pub fn critical<F: FnOnce(u64) -> u64>(&mut self, r: usize, section: F) -> (out: (u64, Option<usize>))
        requires
            old(self).wf(),
            old(self)@.may_claim(r),
            section.requires((old(self)@.values[r as int],)),
        ensures
            final(self).wf(),
            section.ensures((old(self)@.values[r as int],), out.0),
            final(self)@ == old(self)@.claim(r).store(
                r,
                old(self)@.resources[r as int].width.wrapped(out.0),
            ).release(),
            final(self)@.threshold == old(self)@.threshold,
            out.1 == old(self)@.claim(r).store(
                r,
                old(self)@.resources[r as int].width.wrapped(out.0),
            ).unclaim().due(),
    {
        proof {
            lemma_claim_wf(self@, r);
            assert(self@.claim(r).may_access(r));
        }
        self.claim(r);
        let before: u64 = self.values[r];
        let computed: u64 = section(before);
        let stored: u64 = self.resources[r].width.wrap(computed);
        self.write(r, stored);
        assert(self@.holds_any());
        let effect = self.release();
        (computed, effect.started)
    }

    // ----- the scheduler -----

    /// Starts the pending task that is due, if one is.
    fn dispatch(&mut self) -> (started: Option<usize>)
        requires
            old(self)@.inner_wf(),
        ensures
            final(self).wf(),
            final(self)@ == old(self)@.dispatch(),
            started == old(self)@.due(),
    {
        proof {
            lemma_dispatch_wf(self@);
        }
        let n: usize = self.pending.len();
        if n == 0 {
            return None;
        }
        let ghost s = self@;
        let mut best: usize = 0;
        assert(s.pending[0] < s.tasks.len());
        let mut best_priority: u8 = self.tasks[self.pending[0]].priority;
        let mut k: usize = 1;
        while k < n
            invariant
                1 <= k <= n,
                n == self.pending@.len(),
                self@ == s,
                s.inner_wf(),
                best < k,
                best_priority == s.priority(s.pending[best as int]),
                forall|m: int| 0 <= m < k ==> s.priority(#[trigger] s.pending[m]) <= best_priority,
                forall|m: int| 0 <= m < best ==> s.priority(#[trigger] s.pending[m]) < best_priority,
            decreases n - k,
        {
            assert(s.pending[k as int] < s.tasks.len());
            let p: u8 = self.tasks[self.pending[k]].priority;
            if p > best_priority {
                best = k;
                best_priority = p;
            }
            k += 1;
        }
        proof {
            assert(s.is_next(best as int));
            lemma_next_unique(s, best as int);
        }
        if best_priority > self.level_inner() {
            let task: usize = self.pending.remove(best);
            self.running.push(task);
            assert(self@ =~= s.dispatch());
            Some(task)
        } else {
            None
        }
    }

    /// The level, between a release or a completion and the start that
    /// follows it.
    fn level_inner(&self) -> (l: u8)
        requires
            self@.inner_wf(),
        ensures
            l == self@.level(),
    {
        let top: u8 = if self.running.len() == 0 {
            0
        } else {
            assert(self@.running[self.running.len() - 1] < self@.tasks.len());
            self.tasks[self.running[self.running.len() - 1]].priority
        };
        if self.threshold >= top {
            self.threshold
        } else {
            top
        }
    }

    /// Records an activation of `task`, as the interrupt controller delivers
    /// it. The task starts at once, preempting what runs, where its priority
    /// exceeds the level; otherwise it is pending, once however often it is
    /// activated. Returns whether it started.
    pub fn activate(&mut self, task: usize) -> (started: bool)
        requires
            old(self).wf(),
            task < old(self)@.tasks.len(),
        ensures
            final(self).wf(),
            final(self)@ == old(self)@.activate(task),
            started == (old(self)@.priority(task) > old(self)@.level()),
    {
        proof {
            lemma_activate_wf(self@, task);
        }
        if self.tasks[task].priority > self.level() {
            self.running.push(task);
            assert(self@ =~= old(self)@.activate(task));
            true
        } else {
            if !contains(&self.pending, task) {
                self.pending.push(task);
            }
            assert(self@ =~= old(self)@.activate(task));
            false
        }
    }

    /// Ends the executing activation, whose task has returned with no claim
    /// held. The pending task that this lets through, if any, starts and is
    /// returned; otherwise the preempted activation goes on, or the system is
    /// idle.
    pub fn complete(&mut self) -> (started: Option<usize>)
        requires
            old(self).wf(),
            old(self)@.running.len() > 0,
            !old(self)@.holds_any(),
        ensures
            final(self).wf(),
            final(self)@ == old(self)@.complete(),
            started == old(self)@.unwind().due(),
    {
        proof {
            lemma_unwind_wf(self@);
        }
        self.running.pop();
        assert(self@ =~= old(self)@.unwind());
        self.dispatch()
    }

    /// Whether `event` may happen now.
    pub fn allows(&self, event: Event) -> (b: bool)
        requires
            self.wf(),
        ensures
            b == self@.allows(event),
    {
        match event {
            Event::Activate { task } => task < self.tasks.len(),
            Event::Claim { resource } => self.may_claim(resource),
            Event::Release => self.holds_any(),
            Event::Complete => self.running.len() > 0 && !self.holds_any(),
            Event::Write { resource, value } => self.may_access(resource) && self.resources[resource].width.contains(
                value,
            ),
        }
    }

    /// Takes the system through `event`, and says what the event asks of the
    /// interrupt controller and which task it started.
    pub fn step(&mut self, event: Event) -> (effect: Effect)
        requires
            old(self).wf(),
            old(self)@.allows(event),
        ensures
            final(self).wf(),
            final(self)@ == old(self)@.step(event),
            effect == old(self)@.effect(event),
    {
        match event {
            Event::Activate { task } => {
                let started = self.activate(task);
                Effect {
                    masking: Masking::Keep,
                    started: if started {
                        Some(task)
                    } else {
                        None
                    },
                }
            },
            Event::Claim { resource } => {
                let m = self.claim(resource);
                Effect { masking: m, started: None }
            },
            Event::Release => self.release(),
            Event::Complete => {
                let started = self.complete();
                Effect { masking: Masking::Keep, started }
            },
            Event::Write { resource, value } => {
                self.write(resource, value);
                Effect { masking: Masking::Keep, started: None }
            },
        }
    }

    // ----- access to the values -----

    /// Reads the value of `r` for the executing task.
    pub fn read(&self, r: usize) -> (v: u64)
        requires
            self.wf(),
            self@.may_access(r),
        ensures
            v == self@.values[r as int],
    {
        self.values[r]
    }

    /// Writes the value of `r` for the executing task.
    pub fn write(&mut self, r: usize, v: u64)
        requires
            old(self).wf(),
            old(self)@.may_access(r),
            old(self)@.resources[r as int].width.holds(v),
        ensures
            final(self).wf(),
            final(self)@ == old(self)@.store(r, v),
    {
        proof {
            lemma_store_wf(self@, r, v);
        }
        self.values[r] = v;
        assert(self@ =~= old(self)@.store(r, v));
    }

    /// Applies `delta` to the value of `r` for the executing task, under
    /// `mode`. Returns the new value, or `None` for an arithmetic fault, which
    /// leaves the value as it was.
    pub fn update(&mut self, r: usize, delta: Delta, mode: Overflow) -> (v: Option<u64>)
        requires
            old(self).wf(),
            old(self)@.may_access(r),
        ensures
            final(self).wf(),
            v == old(self)@.applied(r, delta, mode),
            final(self)@ == match v {
                Some(x) => old(self)@.store(r, x),
                None => old(self)@,
            },
    {
        let current: u64 = self.values[r];
        assert(self@.resources[r as int].width.holds(self@.values[r as int]));
        let v = self.resources[r].width.update(current, delta, mode);
        if let Some(x) = v {
            proof {
                lemma_store_wf(self@, r, x);
            }
            self.values[r] = x;
            assert(self@ =~= old(self)@.store(r, x));
        }
        v
    }

    /// Whether `values` gives every resource a value within its width.
    pub fn admits(&self, values: &Vec<u64>) -> (b: bool)
        requires
            self.wf(),
        ensures
            b == self@.admits(values@),
    {
        if values.len() != self.resources.len() {
            return false;
        }
        let mut r: usize = 0;
        while r < values.len()
            invariant
                r <= values.len(),
                values.len() == self.resources.len(),
                forall|i: int| 0 <= i < r ==> self.resources@[i].width.holds(#[trigger] values@[i]),
            decreases values.len() - r,
        {
            if !self.resources[r].width.contains(values[r]) {
                return false;
            }
            r += 1;
        }
        true
    }

    /// Sets the resources to `values` while no task runs.
    pub fn assign(&mut self, values: &Vec<u64>)
        requires
            old(self).wf(),
            old(self)@.running.len() == 0,
            old(self)@.admits(values@),
        ensures
            final(self).wf(),
            final(self)@ == old(self)@.assign(values@),
    {
        proof {
            lemma_assign_wf(self@, values@);
        }
        let mut r: usize = 0;
        while r < values.len()
            invariant
                r <= values.len(),
                values.len() == self.values.len(),
                forall|i: int| 0 <= i < r ==> self.values@[i] == values@[i],
                self@ == (State { values: self.values@, ..old(self)@ }),
            decreases values.len() - r,
        {
            self.values[r] = values[r];
            r += 1;
        }
        assert(self@ =~= old(self)@.assign(values@));
    }

    /// Puts every resource back to its initial value while no task runs.
    pub fn reset(&mut self)
        requires
            old(self).wf(),
            old(self)@.running.len() == 0,
        ensures
            final(self).wf(),
            final(self)@ == old(self)@.assign(initial_values(old(self)@.resources)),
    {
        let ghost start = initial_values(self@.resources);
        proof {
            assert forall|r: int| 0 <= r < start.len() implies self@.resources[r].width.holds(
                #[trigger] start[r],
            ) by {
                assert(resource_ok(self@.tasks, self@.resources, r));
            }
            lemma_assign_wf(self@, start);
        }
        let mut r: usize = 0;
        while r < self.resources.len()
            invariant
                r <= self.resources.len(),
                self.resources.len() == self.values.len(),
                start == initial_values(self.resources@),
                forall|i: int| 0 <= i < r ==> self.values@[i] == start[i],
                self@ == (State { values: self.values@, ..old(self)@ }),
            decreases self.resources.len() - r,
        {
            self.values[r] = self.resources[r].initial;
            r += 1;
        }
        assert(self@ =~= old(self)@.assign(start));
    }

    /// Gives resource `r` the value `v` while no task runs.
    pub fn load(&mut self, r: usize, v: u64)
        requires
            old(self).wf(),
            old(self)@.running.len() == 0,
            r < old(self)@.values.len(),
            old(self)@.resources[r as int].width.holds(v),
        ensures
            final(self).wf(),
            final(self)@ == old(self)@.store(r, v),
    {
        proof {
            lemma_store_wf(self@, r, v);
        }
        self.values[r] = v;
        assert(self@ =~= old(self)@.store(r, v));
    }
}

/// Whether `list` holds `x`.
fn contains(list: &Vec<usize>, x: usize) -> (b: bool)
    ensures
        b == list@.contains(x),
{
    let mut k: usize = 0;
    while k < list.len()
        invariant
            k <= list.len(),
            forall|j: int| 0 <= j < k ==> list@[j] != x,
        decreases list.len() - k,
    {
        if list[k] == x {
            return true;
        }
        k += 1;
    }
    false
}

} // verus!
