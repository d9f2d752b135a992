//! A program: a system together with the body of each of its tasks, the
//! dispatch table in full. Every body fits its task, so that each task can be
//! replayed and explored with nothing further to ask of the caller.

use vstd::prelude::*;
use crate::body::{
    fits, fitting, lemma_fits_is_fitting, lemma_replayed_frame, replayed, same_locks, Outcome, Stmt,
};
use crate::config::{accepted, first_fault, ConfigError, Resource, Task};
use crate::exploration::{agree_outside, exact, explored, swept, Vector};
use crate::harness::{check, explore, first_fault_at, replay, verdict, views, Run, TestVector};
use crate::model::State;
use crate::system::{initial_values, System};

verus! {

/// Why a program is refused.
#[derive(Clone, Copy, Debug, PartialEq, Eq)]
pub enum SetupError {
    /// The declarations are refused.
    Config(ConfigError),
    /// There is not one body for each task.
    BodyCount { tasks: usize, bodies: usize },
    /// The body of the task does not fit it.
    Misfit { task: usize },
}

/// A system and the bodies of its tasks.
pub struct Program {
    system: System,
    bodies: Vec<Vec<Stmt>>,
}

impl Program {
    /// The state of the system.
    pub closed spec fn state(&self) -> State {
        self.system@
    }

    /// The bodies of the tasks.
    pub closed spec fn bodies(&self) -> Seq<Vec<Stmt>> {
        self.bodies@
    }

    /// The state from which every replay and exploration starts: that of the
    /// system, with every resource at its initial value.
    pub open spec fn clean(&self) -> State {
        self.state().assign(initial_values(self.state().resources))
    }

    /// The system is idle under its invariant, and each task has a body that
    /// fits it.
    pub open spec fn wf(&self) -> bool {
        &&& self.state().wf()
        &&& self.state().idle()
        &&& self.bodies().len() == self.state().tasks.len()
        &&& forall|t: int|
            0 <= t < self.bodies().len() ==> fits(self.state(), t as usize, (#[trigger] self.bodies()[t])@)
    }

    /// Builds a program from the declarations and one body for each task. The
    /// declarations are looked at first, then the number of bodies, then the
    /// bodies in the order of their tasks.
    pub fn new(tasks: Vec<Task>, resources: Vec<Resource>, bodies: Vec<Vec<Stmt>>) -> (result: Result<
        Program,
        SetupError,
    >)
        ensures
            match result {
                Ok(program) => {
                    &&& program.wf()
                    &&& program.state().tasks == tasks@
                    &&& program.state().resources == resources@
                    &&& program.state().values == initial_values(resources@)
                    &&& program.bodies() == bodies@
                },
                Err(SetupError::Config(e)) => first_fault(tasks@, resources@, e),
                Err(SetupError::BodyCount { tasks: n, bodies: m }) => {
                    &&& accepted(tasks@, resources@)
                    &&& n == tasks@.len()
                    &&& m == bodies@.len()
                    &&& n != m
                },
                Err(SetupError::Misfit { task }) => {
                    &&& accepted(tasks@, resources@)
                    &&& tasks@.len() == bodies@.len()
                    &&& task < bodies@.len()
                    &&& !fitting(tasks@, resources@, task, bodies@[task as int]@)
                    &&& forall|t: int|
                        0 <= t < task ==> fitting(tasks@, resources@, t as usize, (#[trigger] bodies@[t])@)
                },
            },
    {
        let n: usize = tasks.len();
        let system = match System::new(tasks, resources) {
            Ok(system) => system,
            Err(e) => {
                return Err(SetupError::Config(e));
            },
        };
        if bodies.len() != n {
            return Err(SetupError::BodyCount { tasks: n, bodies: bodies.len() });
        }
        let mut t: usize = 0;
        while t < n
            invariant
                t <= n,
                n == bodies@.len(),
                n == system@.tasks.len(),
                system.wf(),
                system@.tasks == tasks@,
                system@.resources == resources@,
                forall|i: int| 0 <= i < t ==> fits(system@, i as usize, (#[trigger] bodies@[i])@),
            decreases n - t,
        {
            if !check(&system, t, &bodies[t]) {
                proof {
                    lemma_fits_is_fitting(system@, t, bodies@[t as int]@);
                    assert forall|i: int| 0 <= i < t implies fitting(
                        tasks@,
                        resources@,
                        i as usize,
                        (#[trigger] bodies@[i])@,
                    ) by {
                        lemma_fits_is_fitting(system@, i as usize, bodies@[i]@);
                    }
                }
                return Err(SetupError::Misfit { task: t });
            }
            t += 1;
        }
        Ok(Program { system, bodies })
    }

    /// The system of the program.
    pub fn system(&self) -> (system: &System)
        ensures
            system@ == self.state(),
    {
        &self.system
    }

    /// The body of `task`.
    pub fn body(&self, task: usize) -> (body: &Vec<Stmt>)
        requires
            task < self.bodies().len(),
        ensures
            *body == self.bodies()[task as int],
    {
        &self.bodies[task]
    }

    /// Replays the body of `task`, alone, with the resources set to `values`.
    /// Returns nothing where the task is not declared or the values are not
    /// admissible, and leaves the program as it was.
    pub fn replay(&mut self, task: usize, values: &Vec<u64>) -> (run: Option<Run>)
        requires
            old(self).wf(),
        ensures
            final(self).wf(),
            final(self).bodies() == old(self).bodies(),
            same_locks(old(self).state(), final(self).state()),
            run is Some <==> task < old(self).bodies().len() && old(self).state().admits(values@),
            run matches Some(r) ==> {
                let t = replayed(old(self).state(), task, old(self).bodies()[task as int]@, values@);
                &&& r.path@ == t.path
                &&& r.outcome == t.outcome()
                &&& final(self).state().values == t.state.values
            },
            run is None ==> final(self).state() == old(self).state(),
    {
        if task >= self.bodies.len() || !self.system.admits(values) {
            return None;
        }
        let ghost s = self.system@;
        assert(fits(s, task, self.bodies()[task as int]@));
        let run = replay(&mut self.system, task, &self.bodies[task], values);
        proof {
            let after = self.system@;
            assert forall|t: int| 0 <= t < self.bodies().len() implies fits(
                after,
                t as usize,
                (#[trigger] self.bodies()[t])@,
            ) by {
                assert(fits(s, t as usize, self.bodies()[t]@));
                lemma_replayed_frame(s, after, t as usize, self.bodies()[t]@, values@);
            }
        }
        Some(run)
    }

    /// Explores the body of `task` from the clean state, over the whole domain
    /// of the resources that the task lists. Returns no vectors where the task
    /// is not declared.
    pub fn explore(&mut self, task: usize) -> (vectors: Vec<TestVector>)
        requires
            old(self).wf(),
        ensures
            final(self).wf(),
            final(self).bodies() == old(self).bodies(),
            same_locks(old(self).state(), final(self).state()),
            views(vectors@) == old(self).explored(task),
            task < old(self).bodies().len() ==> exact(
                old(self).clean(),
                task,
                old(self).bodies()[task as int]@,
                views(vectors@),
            ),
            task < old(self).bodies().len() ==> forall|values: Seq<u64>|
                old(self).clean().admits(values) && agree_outside(
                    values,
                    old(self).clean().values,
                    old(self).state().tasks[task as int].resources@,
                    0,
                ) ==> #[trigger] explored(
                    old(self).clean(),
                    task,
                    old(self).bodies()[task as int]@,
                    views(vectors@),
                    values,
                ),
    {
        if task >= self.bodies.len() {
            let vectors: Vec<TestVector> = Vec::new();
            assert(views(vectors@) =~= Seq::<Vector>::empty());
            return vectors;
        }
        let ghost s = self.system@;
        self.system.reset();
        let ghost clean = self.system@;
        proof {
            assert(fits(s, task, self.bodies()[task as int]@));
            lemma_replayed_frame(s, clean, task, self.bodies()[task as int]@, clean.values);
        }
        let vectors = explore(&mut self.system, task, &self.bodies[task]);
        proof {
            let after = self.system@;
            assert forall|t: int| 0 <= t < self.bodies().len() implies fits(
                after,
                t as usize,
                (#[trigger] self.bodies()[t])@,
            ) by {
                assert(fits(s, t as usize, self.bodies()[t]@));
                lemma_replayed_frame(s, after, t as usize, self.bodies()[t]@, clean.values);
            }
        }
        vectors
    }

    /// The vectors that the exploration of `task` yields: those of the sweep
    /// from the clean state over the resources that the task lists, and none
    /// where the task is not declared.
    pub open spec fn explored(&self, task: usize) -> Seq<Vector> {
        if task < self.bodies().len() {
            swept(
                self.clean(),
                task,
                self.bodies()[task as int]@,
                self.state().tasks[task as int].resources@,
                0,
                self.clean().values,
                Seq::empty(),
            )
        } else {
            Seq::empty()
        }
    }

    /// Explores every task in turn, each from the clean state. Returns the
    /// vectors of each task, in the order of the tasks.
    pub fn survey(&mut self) -> (all: Vec<Vec<TestVector>>)
        requires
            old(self).wf(),
        ensures
            final(self).wf(),
            final(self).bodies() == old(self).bodies(),
            same_locks(old(self).state(), final(self).state()),
            all@.len() == old(self).bodies().len(),
            forall|t: int| 0 <= t < all@.len() ==> views((#[trigger] all@[t])@) == old(self).explored(t as usize),
    {
        let mut all: Vec<Vec<TestVector>> = Vec::new();
        let n: usize = self.bodies.len();
        let mut task: usize = 0;
        while task < n
            invariant
                task <= n,
                n == old(self).bodies().len(),
                self.wf(),
                self.bodies() == old(self).bodies(),
                same_locks(old(self).state(), self.state()),
                all@.len() == task,
                forall|t: int|
                    0 <= t < task ==> views((#[trigger] all@[t])@) == old(self).explored(t as usize),
            decreases n - task,
        {
            proof {
                assert(self.clean() =~= old(self).clean());
            }
            let vectors = self.explore(task);
            all.push(vectors);
            task += 1;
        }
        all
    }
}

/// Whether the vector at position `i` of task `t` is the first, in the order
/// of the tasks, that ends in a fault.
pub open spec fn first_fault_in(all: Seq<Vec<TestVector>>, t: int, i: int) -> bool {
    &&& 0 <= t < all.len()
    &&& first_fault_at(all[t]@, i)
    &&& forall|u: int, j: int|
        0 <= u < t && 0 <= j < all[u]@.len() ==> (#[trigger] all[u]@[j]).outcome == Outcome::Completed
}

/// The outcome of a survey: that of the first vector, in the order of the
/// tasks, that ends in a fault, and completion where none does.
pub fn overall(all: &Vec<Vec<TestVector>>) -> (outcome: Outcome)
    ensures
        outcome == Outcome::Completed ==> forall|t: int, i: int|
            0 <= t < all@.len() && 0 <= i < all@[t]@.len() ==> (#[trigger] all@[t]@[i]).outcome
                == Outcome::Completed,
        outcome != Outcome::Completed ==> exists|t: int, i: int|
            #[trigger] first_fault_in(all@, t, i) && all@[t]@[i].outcome == outcome,
{
    let mut t: usize = 0;
    while t < all.len()
        invariant
            t <= all.len(),
            forall|u: int, j: int|
                0 <= u < t && 0 <= j < all@[u]@.len() ==> (#[trigger] all@[u]@[j]).outcome
                    == Outcome::Completed,
        decreases all.len() - t,
    {
        let outcome = verdict(&all[t]);
        match outcome {
            Outcome::Completed => {},
            Outcome::Fault { site } => {
                proof {
                    let i = choose|i: int|
                        #[trigger] first_fault_at(all@[t as int]@, i) && all@[t as int]@[i].outcome == outcome;
                    assert(first_fault_in(all@, t as int, i));
                }
                return outcome;
            },
        }
        t += 1;
    }
    Outcome::Completed
}

} // verus!
