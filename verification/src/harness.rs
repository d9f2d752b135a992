//! The path-exploration harness: it replays one task alone on a system, with
//! the resources set to chosen values, and records which way the body took
//! and how the run ended; and it explores a body, by the values that a driver
//! supplies or over the whole domain of the task's resources, keeping one
//! test vector for each path.

use vstd::prelude::*;
use crate::body::{
    fits, fits_from, fits_stmt, lemma_access_solo, lemma_claim_solo, lemma_fault_ends, lemma_release_solo,
    lemma_solo_begins, lemma_solo_ends, lemma_times_unfold,
    lemma_replayed_frame, lemma_stmt_balanced, lemma_update_solo, reach, replayed, run_from, run_stmt,
    run_times,
    same_locks, solo, Outcome, Stmt, Trace,
};
use crate::exploration::{
    agree_outside, drawn, exact, explored, gathered, law_gathered_exact, law_swept_exact, lemma_agree_after_update,
    lemma_listed_step, lemma_noted_frame, lemma_swept_frame, limit_at, listed_from, noted, reports, swept,
    swept_from, vector_of, Vector,
};
use crate::model::State;
use crate::system::System;

verus! {

/// What a replay observed: the way taken at each branch and each round of a
/// loop, and how the run ended.
#[derive(Debug, PartialEq, Eq)]
pub struct Run {
    pub path: Vec<bool>,
    pub outcome: Outcome,
}

/// Whether `body` fits `task`: see [`fits`].
pub fn check(system: &System, task: usize, body: &Vec<Stmt>) -> (b: bool)
    requires
        system.wf(),
    ensures
        b == fits(system@, task, body@),
{
    if task >= system.task_count() {
        return false;
    }
    let mut held: Vec<usize> = Vec::new();
    let level: u8 = system.task(task).priority;
    check_block(system, task, level, &mut held, body)
}

/// Whether `block` fits the task at the level reached, inside claims on the
/// resources `held`.
fn check_block(system: &System, task: usize, level: u8, held: &mut Vec<usize>, block: &Vec<Stmt>) -> (b:
    bool)
    requires
        system.wf(),
        task < system@.tasks.len(),
    ensures
        final(held)@ == old(held)@,
        b == fits_from(system@.tasks, system@.ceilings, task, level, old(held)@, block@, 0),
    decreases block, 1int,
{
    let ghost before = held@;
    let mut i: usize = 0;
    while i < block.len()
        invariant
            i <= block.len(),
            system.wf(),
            task < system@.tasks.len(),
            held@ == before,
            before == old(held)@,
            fits_from(system@.tasks, system@.ceilings, task, level, before, block@, 0) == fits_from(
                system@.tasks,
                system@.ceilings,
                task,
                level,
                before,
                block@,
                i as int,
            ),
        decreases block.len() - i,
    {
        if !check_stmt(system, task, level, held, &block[i]) {
            return false;
        }
        i += 1;
    }
    true
}

/// Whether `stmt` fits the task at the level reached, inside claims on the
/// resources `held`.
fn check_stmt(system: &System, task: usize, level: u8, held: &mut Vec<usize>, stmt: &Stmt) -> (b: bool)
    requires
        system.wf(),
        task < system@.tasks.len(),
    ensures
        final(held)@ == old(held)@,
        b == fits_stmt(system@.tasks, system@.ceilings, task, level, old(held)@, *stmt),
    decreases stmt, 0int,
{
    let n: usize = system.resource_count();
    match stmt {
        Stmt::Claim { resource, body } => {
            if *resource >= n || !system.task(task).declares(*resource) || holds(held, *resource) {
                return false;
            }
            let ceiling: u8 = system.ceiling(*resource);
            let inner: u8 = if level >= ceiling {
                level
            } else {
                ceiling
            };
            held.push(*resource);
            let b = check_block(system, task, inner, held, body);
            held.pop();
            assert(held@ =~= old(held)@);
            b
        },
        Stmt::Branch { resource, bound, below, otherwise } => {
            if *resource >= n || !system.task(task).declares(*resource) || level < system.ceiling(
                *resource,
            ) {
                return false;
            }
            check_block(system, task, level, held, below) && check_block(
                system,
                task,
                level,
                held,
                otherwise,
            )
        },
        Stmt::Repeat { resource, body } => {
            if *resource >= n || !system.task(task).declares(*resource) || level < system.ceiling(
                *resource,
            ) {
                return false;
            }
            check_block(system, task, level, held, body)
        },
        Stmt::Update { site, resource, delta, mode } => {
            *resource < n && system.task(task).declares(*resource) && level >= system.ceiling(*resource)
        },
    }
}

/// Whether `list` holds `x`.
fn holds(list: &Vec<usize>, x: usize) -> (b: bool)
    ensures
        b == list@.contains(x),
{
    let mut k: usize = 0;
    while k < list.len()
        invariant
            k <= list.len(),
            forall|j: int| 0 <= j < k ==> list@[j] != x,
        decreases list.len() - k,
    {
        if list[k] == x {
            return true;
        }
        k += 1;
    }
    false
}

/// Runs `block` for the task that executes alone on `system`, adding the
/// way taken at each branch to `path`. Returns the site of the fault that
/// ended the run, if one did.
fn exec_block(
    system: &mut System,
    block: &Vec<Stmt>,
    path: &mut Vec<bool>,
    Ghost(task): Ghost<usize>,
    Ghost(level): Ghost<u8>,
    Ghost(held): Ghost<Seq<usize>>,
) -> (fault: Option<u32>)
    requires
        solo(old(system)@, task, level, held),
        fits_from(old(system)@.tasks, old(system)@.ceilings, task, level, held, block@, 0),
    ensures
        final(system)@ == run_from(Trace { state: old(system)@, path: old(path)@, fault: None }, block@, 0).state,
        final(path)@ == run_from(Trace { state: old(system)@, path: old(path)@, fault: None }, block@, 0).path,
        fault == run_from(Trace { state: old(system)@, path: old(path)@, fault: None }, block@, 0).fault,
        solo(final(system)@, task, level, held),
        same_locks(old(system)@, final(system)@),
    decreases block, 1int,
{
    let ghost start = Trace { state: system@, path: path@, fault: None };
    let ghost goal = run_from(start, block@, 0);
    let mut i: usize = 0;
    while i < block.len()
        invariant
            i <= block.len(),
            start == (Trace { state: old(system)@, path: old(path)@, fault: None }),
            goal == run_from(start, block@, 0),
            goal == run_from(Trace { state: system@, path: path@, fault: None }, block@, i as int),
            solo(system@, task, level, held),
            same_locks(old(system)@, system@),
            fits_from(system@.tasks, system@.ceilings, task, level, held, block@, i as int),
        decreases block.len() - i,
    {
        let ghost here = Trace { state: system@, path: path@, fault: None };
        let fault = exec_stmt(system, &block[i], path, Ghost(task), Ghost(level), Ghost(held));
        if fault.is_some() {
            proof {
                lemma_fault_ends(run_stmt(here, block@[i as int]), block@, i + 1);
            }
            return fault;
        }
        i += 1;
    }
    None
}

/// Runs `block` `count` times over for the task that executes alone on
/// `system`, or as often as it takes to end in a fault.
fn exec_times(
    system: &mut System,
    block: &Vec<Stmt>,
    path: &mut Vec<bool>,
    count: u64,
    Ghost(task): Ghost<usize>,
    Ghost(level): Ghost<u8>,
    Ghost(held): Ghost<Seq<usize>>,
) -> (fault: Option<u32>)
    requires
        solo(old(system)@, task, level, held),
        fits_from(old(system)@.tasks, old(system)@.ceilings, task, level, held, block@, 0),
    ensures
        final(system)@ == run_times(
            Trace { state: old(system)@, path: old(path)@, fault: None },
            block@,
            count as nat,
        ).state,
        final(path)@ == run_times(
            Trace { state: old(system)@, path: old(path)@, fault: None },
            block@,
            count as nat,
        ).path,
        fault == run_times(
            Trace { state: old(system)@, path: old(path)@, fault: None },
            block@,
            count as nat,
        ).fault,
        solo(final(system)@, task, level, held),
        same_locks(old(system)@, final(system)@),
    decreases block, 2int,
{
    let ghost goal = run_times(Trace { state: system@, path: path@, fault: None }, block@, count as nat);
    let mut done: u64 = 0;
    while done < count
        invariant
            done <= count,
            goal == run_times(Trace { state: old(system)@, path: old(path)@, fault: None }, block@, count as nat),
            goal == run_times(
                Trace { state: system@, path: path@, fault: None },
                block@,
                (count - done) as nat,
            ),
            solo(system@, task, level, held),
            same_locks(old(system)@, system@),
            fits_from(system@.tasks, system@.ceilings, task, level, held, block@, 0),
        decreases count - done,
    {
        let ghost here = Trace { state: system@, path: path@, fault: None };
        let ghost left = (count - done) as nat;
        path.push(true);
        let ghost entered = Trace { state: system@, path: path@, fault: None };
        assert(entered == (Trace { path: here.path.push(true), ..here }));
        let fault = exec_block(system, block, path, Ghost(task), Ghost(level), Ghost(held));
        let ghost after = run_from(entered, block@, 0);
        proof {
            lemma_times_unfold(here, block@, left);
            lemma_times_unfold(after, block@, (left - 1) as nat);
        }
        if fault.is_some() {
            return fault;
        }
        done += 1;
    }
    proof {
        lemma_times_unfold(Trace { state: system@, path: path@, fault: None }, block@, 0);
    }
    path.push(false);
    None
}

/// Runs `stmt` for the task that executes alone on `system`.
fn exec_stmt(
    system: &mut System,
    stmt: &Stmt,
    path: &mut Vec<bool>,
    Ghost(task): Ghost<usize>,
    Ghost(level): Ghost<u8>,
    Ghost(held): Ghost<Seq<usize>>,
) -> (fault: Option<u32>)
    requires
        solo(old(system)@, task, level, held),
        fits_stmt(old(system)@.tasks, old(system)@.ceilings, task, level, held, *stmt),
    ensures
        final(system)@ == run_stmt(Trace { state: old(system)@, path: old(path)@, fault: None }, *stmt).state,
        final(path)@ == run_stmt(Trace { state: old(system)@, path: old(path)@, fault: None }, *stmt).path,
        fault == run_stmt(Trace { state: old(system)@, path: old(path)@, fault: None }, *stmt).fault,
        solo(final(system)@, task, level, held),
        same_locks(old(system)@, final(system)@),
    decreases stmt, 0int,
{
    let ghost start = Trace { state: system@, path: path@, fault: None };
    proof {
        lemma_stmt_balanced(start, task, level, held, *stmt);
    }
    match stmt {
        Stmt::Claim { resource, body } => {
            proof {
                lemma_claim_solo(system@, task, level, held, *resource);
            }
            let ghost inner = reach(level, system@.ceilings[*resource as int]);
            system.claim(*resource);
            let fault = exec_block(system, body, path, Ghost(task), Ghost(inner), Ghost(held.push(*resource)));
            proof {
                lemma_release_solo(old(system)@, system@, task, level, held, *resource);
            }
            system.release();
            fault
        },
        Stmt::Branch { resource, bound, below, otherwise } => {
            proof {
                lemma_access_solo(system@, task, level, held, *resource);
            }
            let value: u64 = system.read(*resource);
            if value < *bound {
                path.push(true);
                exec_block(system, below, path, Ghost(task), Ghost(level), Ghost(held))
            } else {
                path.push(false);
                exec_block(system, otherwise, path, Ghost(task), Ghost(level), Ghost(held))
            }
        },
        Stmt::Repeat { resource, body } => {
            proof {
                lemma_access_solo(system@, task, level, held, *resource);
            }
            let count: u64 = system.read(*resource);
            exec_times(system, body, path, count, Ghost(task), Ghost(level), Ghost(held))
        },
        Stmt::Update { site, resource, delta, mode } => {
            proof {
                lemma_update_solo(system@, task, level, held, *resource, *delta, *mode);
            }
            match system.update(*resource, *delta, *mode) {
                Some(_) => None,
                None => Some(*site),
            }
        },
    }
}

/// Replays `body` for `task`, alone, on an idle system with the resources
/// set to `values`. The system is idle again afterwards, with the values
/// that the run left.
pub fn replay(system: &mut System, task: usize, body: &Vec<Stmt>, values: &Vec<u64>) -> (run: Run)
    requires
        old(system).wf(),
        old(system)@.idle(),
        fits(old(system)@, task, body@),
        old(system)@.admits(values@),
    ensures
        final(system).wf(),
        final(system)@.idle(),
        final(system)@ == old(system)@.assign(replayed(old(system)@, task, body@, values@).state.values),
        run.path@ == replayed(old(system)@, task, body@, values@).path,
        run.outcome == replayed(old(system)@, task, body@, values@).outcome(),
{
    system.assign(values);
    let ghost level = system@.priority(task);
    proof {
        lemma_solo_begins(system@, task);
    }
    system.activate(task);
    let mut path: Vec<bool> = Vec::new();
    assert(path@ =~= Seq::<bool>::empty());
    let fault = exec_block(system, body, &mut path, Ghost(task), Ghost(level), Ghost(Seq::empty()));
    let ghost ended = system@;
    proof {
        lemma_solo_ends(ended, task, level);
    }
    system.complete();
    assert(system@ =~= old(system)@.assign(ended.values));
    let outcome = match fault {
        Some(site) => Outcome::Fault { site },
        None => Outcome::Completed,
    };
    Run { path, outcome }
}

/// A test vector: the values of all the resources, in the order declared,
/// that reproduce one path of a task's body, the way the path takes at each
/// branch and each round of a loop, and how it ends.
#[derive(Debug, PartialEq, Eq)]
pub struct TestVector {
    pub path: Vec<bool>,
    pub values: Vec<u64>,
    pub outcome: Outcome,
}

impl View for TestVector {
    type V = Vector;

    open spec fn view(&self) -> Vector {
        Vector { path: self.path@, values: self.values@, outcome: self.outcome }
    }
}

/// The test vectors as mathematical values.
pub open spec fn views(vectors: Seq<TestVector>) -> Seq<Vector> {
    Seq::new(vectors.len(), |i: int| vectors[i]@)
}

/// Whether two paths are the same.
fn same_path(a: &Vec<bool>, b: &Vec<bool>) -> (same: bool)
    ensures
        same == (a@ == b@),
{
    if a.len() != b.len() {
        return false;
    }
    let mut i: usize = 0;
    while i < a.len()
        invariant
            i <= a.len(),
            a.len() == b.len(),
            forall|j: int| 0 <= j < i ==> a@[j] == b@[j],
        decreases a.len() - i,
    {
        if a[i] != b[i] {
            return false;
        }
        i += 1;
    }
    assert(a@ =~= b@);
    true
}

/// Whether the vector stands for the run.
fn stands_for(v: &TestVector, run: &Run) -> (b: bool)
    ensures
        b == reports(v@, run.path@, run.outcome),
{
    match run.outcome {
        Outcome::Completed => {
            match v.outcome {
                Outcome::Completed => same_path(&v.path, &run.path),
                Outcome::Fault { site } => false,
            }
        },
        Outcome::Fault { site } => {
            match v.outcome {
                Outcome::Completed => false,
                Outcome::Fault { site: other } => other == site,
            }
        },
    }
}

/// A copy of `values`.
fn copy(values: &Vec<u64>) -> (out: Vec<u64>)
    ensures
        out@ == values@,
{
    let mut out: Vec<u64> = Vec::new();
    let mut i: usize = 0;
    while i < values.len()
        invariant
            i <= values.len(),
            out@ == values@.take(i as int),
        decreases values.len() - i,
    {
        out.push(values[i]);
        assert(values@.take(i + 1) =~= values@.take(i as int).push(values@[i as int]));
        i += 1;
    }
    assert(values@.take(values.len() as int) =~= values@);
    out
}

/// Replays the body with `values` and adds a test vector for the run to
/// `vectors`, unless one of them stands for it already: one of the same
/// path where the run completes, one of the same site where it ends in a
/// fault.
#[verifier::loop_isolation(false)]
pub fn record(
    system: &mut System,
    task: usize,
    body: &Vec<Stmt>,
    values: &Vec<u64>,
    vectors: &mut Vec<TestVector>,
)
    requires
        old(system).wf(),
        old(system)@.idle(),
        fits(old(system)@, task, body@),
        old(system)@.admits(values@),
    ensures
        final(system).wf(),
        final(system)@.idle(),
        final(system)@ == old(system)@.assign(replayed(old(system)@, task, body@, values@).state.values),
        views(final(vectors)@) == noted(old(system)@, task, body@, views(old(vectors)@), values@),
{
    let ghost s = system@;
    let ghost before = views(vectors@);
    let run = replay(system, task, body, values);
    let mut i: usize = 0;
    while i < vectors.len()
        invariant
            i <= vectors.len(),
            vectors@ == old(vectors)@,
            forall|j: int| 0 <= j < i ==> !reports(#[trigger] before[j], run.path@, run.outcome),
        decreases vectors.len() - i,
    {
        if stands_for(&vectors[i], &run) {
            assert(reports(before[i as int], run.path@, run.outcome));
            return;
        }
        i += 1;
    }
    let v = TestVector { path: run.path, values: copy(values), outcome: run.outcome };
    vectors.push(v);
    assert(v@ == vector_of(s, task, body@, values@));
    assert(views(vectors@) =~= before.push(v@));
}

/// Explores the body of `task` with the values that a driver supplies: takes
/// note of the replay with each admissible candidate in turn, which keeps one
/// test vector for each path found and one for each site of a fault, that of
/// the first candidate that shows it. Candidates that are not admissible are
/// passed over.
pub fn explore_with(system: &mut System, task: usize, body: &Vec<Stmt>, candidates: &Vec<Vec<u64>>) -> (vectors:
    Vec<TestVector>)
    requires
        old(system).wf(),
        old(system)@.idle(),
        fits(old(system)@, task, body@),
    ensures
        final(system).wf(),
        final(system)@.idle(),
        same_locks(old(system)@, final(system)@),
        views(vectors@) == gathered(old(system)@, task, body@, candidates@, candidates@.len() as int),
        exact(old(system)@, task, body@, views(vectors@)),
        forall|c: int|
            0 <= c < candidates@.len() && old(system)@.admits(candidates@[c]@) ==> explored(
                old(system)@,
                task,
                body@,
                views(vectors@),
                #[trigger] candidates@[c]@,
            ),
        forall|i: int|
            0 <= i < views(vectors@).len() ==> drawn(
                candidates@,
                candidates@.len() as int,
                #[trigger] views(vectors@)[i],
            ),
{
    let ghost s0 = system@;
    let mut vectors: Vec<TestVector> = Vec::new();
    assert(views(vectors@) =~= gathered(s0, task, body@, candidates@, 0));
    let mut c: usize = 0;
    while c < candidates.len()
        invariant
            c <= candidates.len(),
            system.wf(),
            system@.idle(),
            same_locks(s0, system@),
            fits(s0, task, body@),
            views(vectors@) == gathered(s0, task, body@, candidates@, c as int),
        decreases candidates.len() - c,
    {
        let ghost here = system@;
        proof {
            lemma_replayed_frame(s0, here, task, body@, candidates@[c as int]@);
            lemma_noted_frame(here, s0, task, body@, views(vectors@), candidates@[c as int]@);
        }
        if system.admits(&candidates[c]) {
            record(system, task, body, &candidates[c], &mut vectors);
        }
        c += 1;
    }
    proof {
        law_gathered_exact(s0, task, body@, candidates@, candidates@.len() as int);
    }
    vectors
}

/// Explores the body of `task` over the whole domain of the resources that
/// the task lists, the other resources keeping their values: takes note of
/// the replay with every such assignment, the resource listed first varying
/// slowest and each going through its values from zero up. This keeps one
/// test vector for each path that the body can take and one for each site at
/// which it can end in a fault.
pub fn explore(system: &mut System, task: usize, body: &Vec<Stmt>) -> (vectors: Vec<TestVector>)
    requires
        old(system).wf(),
        old(system)@.idle(),
        fits(old(system)@, task, body@),
    ensures
        final(system).wf(),
        final(system)@.idle(),
        same_locks(old(system)@, final(system)@),
        views(vectors@) == swept(
            old(system)@,
            task,
            body@,
            old(system)@.tasks[task as int].resources@,
            0,
            old(system)@.values,
            Seq::empty(),
        ),
        exact(old(system)@, task, body@, views(vectors@)),
        forall|values: Seq<u64>|
            old(system)@.admits(values) && agree_outside(
                values,
                old(system)@.values,
                old(system)@.tasks[task as int].resources@,
                0,
            ) ==> #[trigger] explored(old(system)@, task, body@, views(vectors@), values),
{
    let ghost s0 = system@;
    let mut vectors: Vec<TestVector> = Vec::new();
    let mut current: Vec<u64> = Vec::new();
    let n: usize = system.resource_count();
    let mut r: usize = 0;
    while r < n
        invariant
            r <= n,
            n == system@.values.len(),
            system@ == s0,
            current@.len() == r,
            forall|i: int| 0 <= i < r ==> current@[i] == s0.values[i],
        decreases n - r,
    {
        current.push(system.value(r));
        r += 1;
    }
    assert(current@ =~= s0.values);
    assert(views(vectors@) =~= Seq::<Vector>::empty());
    proof {
        assert(s0.tasks[task as int].valid(s0.resources.len()));
        law_swept_exact(s0, task, body@, s0.tasks[task as int].resources@, 0, s0.values, Seq::empty());
    }
    sweep(system, task, body, &mut current, 0, &mut vectors, Ghost(s0));
    vectors
}

/// Sweeps over the domains of the resources that the task lists at position
/// `k` and after it, the others keeping the values in `current`.
#[verifier::loop_isolation(false)]
fn sweep(
    system: &mut System,
    task: usize,
    body: &Vec<Stmt>,
    current: &mut Vec<u64>,
    k: usize,
    vectors: &mut Vec<TestVector>,
    Ghost(s0): Ghost<State>,
)
    requires
        old(system).wf(),
        old(system)@.idle(),
        same_locks(s0, old(system)@),
        fits(s0, task, body@),
        s0.admits(old(current)@),
        k <= s0.tasks[task as int].resources@.len(),
    ensures
        final(system).wf(),
        final(system)@.idle(),
        same_locks(s0, final(system)@),
        s0.admits(final(current)@),
        agree_outside(final(current)@, old(current)@, s0.tasks[task as int].resources@, k as int),
        views(final(vectors)@) == swept(
            s0,
            task,
            body@,
            s0.tasks[task as int].resources@,
            k as int,
            old(current)@,
            views(old(vectors)@),
        ),
    decreases s0.tasks[task as int].resources@.len() - k,
{
    let ghost list = s0.tasks[task as int].resources@;
    let ghost c0 = current@;
    let ghost v0 = views(vectors@);
    let ghost here = system@;
    proof {
        assert(s0.tasks[task as int].valid(s0.resources.len()));
    }
    if k >= system.task(task).resources.len() {
        proof {
            lemma_replayed_frame(s0, here, task, body@, c0);
            lemma_noted_frame(here, s0, task, body@, v0, c0);
        }
        record(system, task, body, current, vectors);
        return;
    }
    let r: usize = system.task(task).resources[k];
    assert(list[k as int] == r);
    let max: u64 = system.resource(r).width.max();
    let ghost goal = swept_from(s0, task, body@, list, k as int, c0, 0, v0);
    let mut v: u64 = 0;
    let mut finished: bool = false;
    while !finished
        invariant
            v <= max,
            max == limit_at(s0, list, k as int),
            r < current@.len(),
            system.wf(),
            system@.idle(),
            same_locks(s0, system@),
            s0.admits(current@),
            agree_outside(current@, c0, list, k as int),
            !finished ==> goal == swept_from(s0, task, body@, list, k as int, c0, v as int, views(vectors@)),
            finished ==> goal == views(vectors@),
        decreases
                max - v + if finished {
                    0int
                } else {
                    1int
                },
    {
        let ghost c1 = current@;
        let ghost v1 = views(vectors@);
        current[r] = v;
        let ghost c2 = current@;
        proof {
            assert forall|i: int| 0 <= i < c2.len() implies s0.resources[i].width.holds(
                #[trigger] c2[i],
            ) by {
                if i != r {
                    assert(c2[i] == c1[i]);
                }
            }
            lemma_agree_after_update(c1, c0, list, k as int, v);
            lemma_swept_frame(s0, task, body@, list, k + 1, c2, c0.update(r as int, v), v1);
        }
        sweep(system, task, body, current, k + 1, vectors, Ghost(s0));
        proof {
            let c3 = current@;
            assert forall|x: int| 0 <= x < c3.len() && !listed_from(list, k as int, x) implies #[trigger] c3[x]
                == c0[x] by {
                lemma_listed_step(list, k as int, x);
                assert(c3[x] == c2[x]);
                assert(c2[x] == c1[x]);
            }
            let mid = swept(s0, task, body@, list, k + 1, c0.update(r as int, v), v1);
            assert(views(vectors@) == mid);
            assert(goal == swept_from(s0, task, body@, list, k as int, c0, v + 1, mid));
            if v == max {
                assert(swept_from(s0, task, body@, list, k as int, c0, v + 1, mid) == mid);
            }
        }
        if v == max {
            finished = true;
        } else {
            v += 1;
        }
    }
}

/// Whether the vector at position `i` is the first that ends in a fault.
pub open spec fn first_fault_at(vs: Seq<TestVector>, i: int) -> bool {
    &&& 0 <= i < vs.len()
    &&& vs[i].outcome != Outcome::Completed
    &&& forall|j: int| 0 <= j < i ==> (#[trigger] vs[j]).outcome == Outcome::Completed
}

/// The outcome of an exploration: that of the first vector that ends in a
/// fault, and completion where none does.
pub fn verdict(vectors: &Vec<TestVector>) -> (outcome: Outcome)
    ensures
        outcome == Outcome::Completed ==> forall|i: int|
            0 <= i < vectors@.len() ==> (#[trigger] vectors@[i]).outcome == Outcome::Completed,
        outcome != Outcome::Completed ==> exists|i: int|
            #[trigger] first_fault_at(vectors@, i) && vectors@[i].outcome == outcome,
{
    let mut i: usize = 0;
    while i < vectors.len()
        invariant
            i <= vectors.len(),
            forall|j: int| 0 <= j < i ==> (#[trigger] vectors@[j]).outcome == Outcome::Completed,
        decreases vectors.len() - i,
    {
        match vectors[i].outcome {
            Outcome::Completed => {},
            Outcome::Fault { site } => {
                assert(first_fault_at(vectors@, i as int));
                return Outcome::Fault { site };
            },
        }
        i += 1;
    }
    Outcome::Completed
}

} // verus!
