//! Task bodies as data: blocks of statements over the values of the
//! resources, with claims scoped to blocks so that every claim is released in
//! reverse order wherever the block is left. The only loop repeats a block a
//! number of times that is fixed when the loop is reached, so every run of a
//! body ends.
//!
//! The meaning of a body is given on the model: what a run makes of a state,
//! which way it took at each branch, and whether it ended in an arithmetic
//! fault.

use vstd::prelude::*;
use crate::config::{table_of, Resource, Task};
use crate::laws::law_table_is_derived;
use crate::preservation::{
    lemma_activate_wf, lemma_claim_wf, lemma_complete_wf, lemma_release_wf, lemma_store_wf,
};
use crate::model::State;
use crate::value::{Delta, Overflow};

verus! {

/// A statement of a task body.
#[derive(Debug)]
pub enum Stmt {
    /// Holds a claim on the resource while the block runs.
    Claim { resource: usize, body: Vec<Stmt> },
    /// Runs `below` where the value of the resource is less than `bound`,
    /// and `otherwise` where it is not.
    Branch { resource: usize, bound: u64, below: Vec<Stmt>, otherwise: Vec<Stmt> },
    /// Runs the block as many times as the value of the resource says when
    /// the statement is reached.
    Repeat { resource: usize, body: Vec<Stmt> },
    /// Applies `delta` to the value of the resource under `mode`. `site` names
    /// the place in the source, by which faults are told apart.
    Update { site: u32, resource: usize, delta: Delta, mode: Overflow },
}

/// How a run ended.
#[derive(Clone, Copy, Debug, PartialEq, Eq)]
pub enum Outcome {
    /// The body returned.
    Completed,
    /// An update at this site left the range of its resource.
    Fault { site: u32 },
}

/// A run in progress: the state reached, the way taken at each branch so far,
/// and the site of the fault that ended the run, if one did. A branch adds
/// `true` to the path where it takes `below`; a loop adds `true` for each
/// round and `false` when it is left.
pub struct Trace {
    pub state: State,
    pub path: Seq<bool>,
    pub fault: Option<u32>,
}

impl Trace {
    /// The trace of a run that starts in `state`.
    pub open spec fn begin(state: State) -> Trace {
        Trace { state, path: Seq::empty(), fault: None }
    }

    /// How the run ended.
    pub open spec fn outcome(self) -> Outcome {
        match self.fault {
            Some(site) => Outcome::Fault { site },
            None => Outcome::Completed,
        }
    }
}

/// The trace after `stmt` has run. A run that has ended in a fault stays as
/// it is. A claim is released when its block is left, whether by its end or
/// by a fault.
pub open spec fn run_stmt(t: Trace, stmt: Stmt) -> Trace
    decreases stmt, 0int, 0int,
{
    if t.fault is Some {
        t
    } else {
        match stmt {
            Stmt::Claim { resource, body } => {
                let inner = run_from(Trace { state: t.state.claim(resource), ..t }, body@, 0);
                Trace { state: inner.state.release(), ..inner }
            },
            Stmt::Branch { resource, bound, below, otherwise } => {
                if t.state.values[resource as int] < bound {
                    run_from(Trace { path: t.path.push(true), ..t }, below@, 0)
                } else {
                    run_from(Trace { path: t.path.push(false), ..t }, otherwise@, 0)
                }
            },
            Stmt::Repeat { resource, body } => run_times(t, body@, t.state.values[resource as int] as nat),
            Stmt::Update { site, resource, delta, mode } => {
                match t.state.applied(resource, delta, mode) {
                    Some(v) => Trace { state: t.state.store(resource, v), ..t },
                    None => Trace { fault: Some(site), ..t },
                }
            },
        }
    }
}

/// The trace after the statements of `block` from position `i` on have run.
pub open spec fn run_from(t: Trace, block: Seq<Stmt>, i: int) -> Trace
    decreases block, 0int, block.len() - i,
{
    if 0 <= i < block.len() {
        run_from(run_stmt(t, block[i]), block, i + 1)
    } else {
        t
    }
}

/// The trace after `block` has run `n` times over, or as often as it takes
/// to end in a fault.
pub open spec fn run_times(t: Trace, block: Seq<Stmt>, n: nat) -> Trace
    decreases block, 1 + n, 0int,
{
    if t.fault is Some {
        t
    } else if n == 0 {
        Trace { path: t.path.push(false), ..t }
    } else {
        run_times(run_from(Trace { path: t.path.push(true), ..t }, block, 0), block, (n - 1) as nat)
    }
}

/// The trace of a whole block.
pub open spec fn run(state: State, block: Seq<Stmt>) -> Trace {
    run_from(Trace::begin(state), block, 0)
}

/// Whether `stmt` fits a task, given the task declarations and the table of
/// ceilings: the task lists every resource that the statement names; a
/// resource is read and written only where `level`, the priority that the
/// enclosing claims have reached, is at least its ceiling; and no resource is
/// claimed inside a claim on itself. `held` lists the resources of the
/// enclosing claims.
pub open spec fn fits_stmt(
    tasks: Seq<Task>,
    ceilings: Seq<u8>,
    task: usize,
    level: u8,
    held: Seq<usize>,
    stmt: Stmt,
) -> bool
    decreases stmt, 0int,
{
    match stmt {
        Stmt::Claim { resource, body } => {
            &&& listed(tasks, ceilings, task, resource)
            &&& !held.contains(resource)
            &&& fits_from(
                tasks,
                ceilings,
                task,
                reach(level, ceilings[resource as int]),
                held.push(resource),
                body@,
                0,
            )
        },
        Stmt::Branch { resource, bound, below, otherwise } => {
            &&& listed(tasks, ceilings, task, resource)
            &&& level >= ceilings[resource as int]
            &&& fits_from(tasks, ceilings, task, level, held, below@, 0)
            &&& fits_from(tasks, ceilings, task, level, held, otherwise@, 0)
        },
        Stmt::Repeat { resource, body } => {
            &&& listed(tasks, ceilings, task, resource)
            &&& level >= ceilings[resource as int]
            &&& fits_from(tasks, ceilings, task, level, held, body@, 0)
        },
        Stmt::Update { site, resource, delta, mode } => {
            &&& listed(tasks, ceilings, task, resource)
            &&& level >= ceilings[resource as int]
        },
    }
}

/// Whether the statements of `block` from position `i` on fit the task.
pub open spec fn fits_from(
    tasks: Seq<Task>,
    ceilings: Seq<u8>,
    task: usize,
    level: u8,
    held: Seq<usize>,
    block: Seq<Stmt>,
    i: int,
) -> bool
    decreases block, block.len() - i,
{
    if 0 <= i < block.len() {
        fits_stmt(tasks, ceilings, task, level, held, block[i]) && fits_from(
            tasks,
            ceilings,
            task,
            level,
            held,
            block,
            i + 1,
        )
    } else {
        true
    }
}

/// Whether `block` fits `task` as its body in a system of state `s`.
pub open spec fn fits(s: State, task: usize, block: Seq<Stmt>) -> bool {
    &&& task < s.tasks.len()
    &&& fits_from(s.tasks, s.ceilings, task, s.priority(task), Seq::empty(), block, 0)
}

/// Whether `block` fits `task` as its body under the given declarations.
pub open spec fn fitting(tasks: Seq<Task>, resources: Seq<Resource>, task: usize, block: Seq<Stmt>) -> bool {
    &&& task < tasks.len()
    &&& fits_from(
        tasks,
        table_of(tasks, resources.len()),
        task,
        tasks[task as int].priority,
        Seq::empty(),
        block,
        0,
    )
}

/// Whether `task` lists the declared resource `r`.
pub open spec fn listed(tasks: Seq<Task>, ceilings: Seq<u8>, task: usize, r: usize) -> bool {
    r < ceilings.len() && tasks[task as int].declares(r)
}

/// The level after a claim on a resource of the given ceiling.
pub open spec fn reach(level: u8, ceiling: u8) -> u8 {
    if level >= ceiling {
        level
    } else {
        ceiling
    }
}

/// The trace of `task` run alone on `block`, from the idle state `s` with
/// the resources set to `values`.
pub open spec fn replayed(s: State, task: usize, block: Seq<Stmt>, values: Seq<u64>) -> Trace {
    run(s.assign(values).activate(task), block)
}

/// The meaning of a replay does not depend on the values that the resources
/// had before it.
pub proof fn lemma_replayed_frame(a: State, b: State, task: usize, block: Seq<Stmt>, values: Seq<u64>)
    requires
        same_locks(a, b),
    ensures
        replayed(a, task, block, values) == replayed(b, task, block, values),
        a.admits(values) == b.admits(values),
        fits(a, task, block) == fits(b, task, block),
{
    assert(a.assign(values) =~= b.assign(values));
}

/// In a system under the invariant a body fits a task as it does under the
/// declarations of the system.
pub proof fn lemma_fits_is_fitting(s: State, task: usize, block: Seq<Stmt>)
    requires
        s.config_wf(),
    ensures
        fits(s, task, block) == fitting(s.tasks, s.resources, task, block),
{
    law_table_is_derived(s);
}

/// A state in which `task` runs alone, under the invariant, with `level`
/// reached and claims held on the resources `held`, oldest first.
#[verifier::opaque]
pub open spec fn solo(s: State, task: usize, level: u8, held: Seq<usize>) -> bool {
    &&& s.wf()
    &&& s.running.len() == 1
    &&& s.running[0] == task
    &&& s.pending.len() == 0
    &&& s.level() == level
    &&& s.claims.len() == held.len()
    &&& forall|j: int| 0 <= j < held.len() ==> (#[trigger] s.claims[j]).resource == held[j]
}

/// `b` is `a` but for the values of the resources.
pub open spec fn same_locks(a: State, b: State) -> bool {
    b == State { values: b.values, ..a }
}

/// A run that has ended in a fault stays as it is.
pub proof fn lemma_fault_ends(t: Trace, block: Seq<Stmt>, i: int)
    requires
        t.fault is Some,
    ensures
        run_from(t, block, i) == t,
    decreases block.len() - i,
{
    if 0 <= i < block.len() {
        assert(run_stmt(t, block[i]) == t);
        lemma_fault_ends(t, block, i + 1);
    }
}

/// A claim that fits may be made, and takes a solo state to the solo state
/// of the block inside it.
pub proof fn lemma_claim_solo(s: State, task: usize, level: u8, held: Seq<usize>, r: usize)
    requires
        solo(s, task, level, held),
        listed(s.tasks, s.ceilings, task, r),
        !held.contains(r),
    ensures
        s.wf(),
        s.may_claim(r),
        solo(s.claim(r), task, reach(level, s.ceilings[r as int]), held.push(r)),
{
    reveal(solo);
    if s.holds(r) {
        let j = choose|j: int| 0 <= j < s.claims.len() && (#[trigger] s.claims[j]).resource == r;
        assert(held[j] == r);
    }
    lemma_claim_wf(s, r);
    let s1 = s.claim(r);
    let held1 = held.push(r);
    assert forall|j: int| 0 <= j < held1.len() implies (#[trigger] s1.claims[j]).resource == held1[j] by {
        if j < held.len() {
            assert(s1.claims[j] == s.claims[j]);
        }
    }
}

/// The release at the end of a claim's block gives back the state before the
/// claim, but for the values that the block has changed.
pub proof fn lemma_release_solo(s: State, s2: State, task: usize, level: u8, held: Seq<usize>, r: usize)
    requires
        solo(s, task, level, held),
        s.may_claim(r),
        solo(s2, task, reach(level, s.ceilings[r as int]), held.push(r)),
        same_locks(s.claim(r), s2),
    ensures
        s2.wf(),
        s2.holds_any(),
        s2.release() == (State { values: s2.values, ..s }),
        solo(s2.release(), task, level, held),
{
    reveal(solo);
    lemma_release_wf(s2);
    assert(s2.claims == s.claims.push(s2.claims.last()));
    assert(s2.claims.drop_last() =~= s.claims);
    assert(s2.unclaim() =~= State { values: s2.values, ..s });
    assert(!s2.unclaim().ready());
    assert(s2.release() == s2.unclaim());
}

/// A resource that a statement may name where it fits may be accessed.
pub proof fn lemma_access_solo(s: State, task: usize, level: u8, held: Seq<usize>, r: usize)
    requires
        solo(s, task, level, held),
        listed(s.tasks, s.ceilings, task, r),
        level >= s.ceilings[r as int],
    ensures
        s.wf(),
        s.may_access(r),
{
    reveal(solo);
}

/// An idle state under the invariant is solo once a task has been activated
/// in it, and idle again once the task has returned with no claim held.
pub proof fn lemma_solo_begins(s: State, task: usize)
    requires
        s.wf(),
        s.idle(),
        task < s.tasks.len(),
    ensures
        solo(s.activate(task), task, s.priority(task), Seq::empty()),
{
    reveal(solo);
    assert(s.tasks[task as int].valid(s.resources.len()));
    lemma_activate_wf(s, task);
}

/// A solo state with no claim held is idle once the task has returned.
pub proof fn lemma_solo_ends(s: State, task: usize, level: u8)
    requires
        solo(s, task, level, Seq::empty()),
    ensures
        s.wf(),
        s.running.len() == 1,
        !s.holds_any(),
        s.complete() == s.unwind(),
        s.complete().idle(),
        s.complete().running =~= Seq::<usize>::empty(),
{
    reveal(solo);
    lemma_complete_wf(s);
    assert(!s.unwind().ready());
}

/// An update that fits may be made, and keeps a solo state solo.
pub proof fn lemma_update_solo(
    s: State,
    task: usize,
    level: u8,
    held: Seq<usize>,
    r: usize,
    delta: Delta,
    mode: Overflow,
)
    requires
        solo(s, task, level, held),
        listed(s.tasks, s.ceilings, task, r),
        level >= s.ceilings[r as int],
    ensures
        s.wf(),
        s.may_access(r),
        s.applied(r, delta, mode) matches Some(v) ==> solo(s.store(r, v), task, level, held)
            && s.resources[r as int].width.holds(v),
{
    reveal(solo);
    assert(s.resources[r as int].width.holds(s.values[r as int]));
    match s.applied(r, delta, mode) {
        Some(v) => {
            lemma_store_wf(s, r, v);
            assert(s.store(r, v).level() == s.level());
        },
        None => {},
    }
}

/// A statement that fits leaves the locks as it found them: the threshold,
/// the claims and the running task are the same after it, whichever way the
/// run took and whether or not it ended in a fault.
pub proof fn lemma_stmt_balanced(t: Trace, task: usize, level: u8, held: Seq<usize>, stmt: Stmt)
    requires
        solo(t.state, task, level, held),
        fits_stmt(t.state.tasks, t.state.ceilings, task, level, held, stmt),
    ensures
        same_locks(t.state, run_stmt(t, stmt).state),
        solo(run_stmt(t, stmt).state, task, level, held),
    decreases stmt, 0int, 0int,
{
    let s = t.state;
    if t.fault is None {
        match stmt {
            Stmt::Claim { resource, body } => {
                let c = s.ceilings[resource as int];
                lemma_claim_solo(s, task, level, held, resource);
                let t1 = Trace { state: s.claim(resource), ..t };
                lemma_from_balanced(t1, task, reach(level, c), held.push(resource), body@, 0);
                let inner = run_from(t1, body@, 0);
                lemma_release_solo(s, inner.state, task, level, held, resource);
            },
            Stmt::Branch { resource, bound, below, otherwise } => {
                if s.values[resource as int] < bound {
                    lemma_from_balanced(Trace { path: t.path.push(true), ..t }, task, level, held, below@, 0);
                } else {
                    lemma_from_balanced(
                        Trace { path: t.path.push(false), ..t },
                        task,
                        level,
                        held,
                        otherwise@,
                        0,
                    );
                }
            },
            Stmt::Repeat { resource, body } => {
                lemma_times_balanced(t, task, level, held, body@, s.values[resource as int] as nat);
            },
            Stmt::Update { site, resource, delta, mode } => {
                lemma_update_solo(s, task, level, held, resource, delta, mode);
            },
        }
    }
}

/// A block that fits leaves the locks as it found them.
pub proof fn lemma_from_balanced(t: Trace, task: usize, level: u8, held: Seq<usize>, block: Seq<Stmt>, i: int)
    requires
        0 <= i,
        solo(t.state, task, level, held),
        fits_from(t.state.tasks, t.state.ceilings, task, level, held, block, i),
    ensures
        same_locks(t.state, run_from(t, block, i).state),
        solo(run_from(t, block, i).state, task, level, held),
    decreases block, 0int, block.len() - i,
{
    if i < block.len() {
        lemma_stmt_balanced(t, task, level, held, block[i]);
        lemma_from_balanced(run_stmt(t, block[i]), task, level, held, block, i + 1);
    }
}

/// What a loop does, one round at a time.
pub proof fn lemma_times_unfold(t: Trace, block: Seq<Stmt>, n: nat)
    ensures
        t.fault is Some ==> run_times(t, block, n) == t,
        t.fault is None && n == 0 ==> run_times(t, block, n) == (Trace { path: t.path.push(false), ..t }),
        t.fault is None && n > 0 ==> run_times(t, block, n) == run_times(
            run_from(Trace { path: t.path.push(true), ..t }, block, 0),
            block,
            (n - 1) as nat,
        ),
{
}

/// A block that fits leaves the locks as it found them, however often it is
/// repeated.
pub proof fn lemma_times_balanced(t: Trace, task: usize, level: u8, held: Seq<usize>, block: Seq<Stmt>, n: nat)
    requires
        solo(t.state, task, level, held),
        fits_from(t.state.tasks, t.state.ceilings, task, level, held, block, 0),
    ensures
        same_locks(t.state, run_times(t, block, n).state),
        solo(run_times(t, block, n).state, task, level, held),
    decreases block, 1 + n, 0int,
{
    lemma_times_unfold(t, block, n);
    if t.fault is None && n > 0 {
        let t1 = Trace { path: t.path.push(true), ..t };
        lemma_from_balanced(t1, task, level, held, block, 0);
        lemma_times_balanced(run_from(t1, block, 0), task, level, held, block, (n - 1) as nat);
    }
}

} // verus!
