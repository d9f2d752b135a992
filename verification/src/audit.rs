//! Warnings on a configuration that is accepted but deserves a second look:
//! a task that lists a shared resource which its body never names, and tasks
//! of equal priority that share a resource, which rely on the rule that
//! equal priorities do not preempt each other.
//!
//! The warnings go by the text of a body, not by which of its statements a
//! run can reach.

use vstd::prelude::*;
use crate::body::Stmt;
use crate::config::Task;
use crate::system::System;

verus! {

/// Whether `stmt`, or a statement inside it, names resource `r`.
pub open spec fn stmt_names(stmt: Stmt, r: usize) -> bool
    decreases stmt, 0int,
{
    match stmt {
        Stmt::Claim { resource, body } => resource == r || names_from(body@, 0, r),
        Stmt::Branch { resource, bound, below, otherwise } => resource == r || names_from(below@, 0, r)
            || names_from(otherwise@, 0, r),
        Stmt::Repeat { resource, body } => resource == r || names_from(body@, 0, r),
        Stmt::Update { site, resource, delta, mode } => resource == r,
    }
}

/// Whether a statement of `block` at position `i` or after it names `r`.
pub open spec fn names_from(block: Seq<Stmt>, i: int, r: usize) -> bool
    decreases block, block.len() - i,
{
    if 0 <= i < block.len() {
        stmt_names(block[i], r) || names_from(block, i + 1, r)
    } else {
        false
    }
}

/// Whether a task other than `task` lists resource `r`.
pub open spec fn shared(tasks: Seq<Task>, task: usize, r: usize) -> bool {
    exists|t: int| 0 <= t < tasks.len() && t != task && #[trigger] tasks[t].declares(r)
}

/// Whether `r` is shared with another task and the body never names it.
pub open spec fn neglected(tasks: Seq<Task>, task: usize, block: Seq<Stmt>, r: usize) -> bool {
    shared(tasks, task, r) && !names_from(block, 0, r)
}

/// Whether tasks `a` and `b` both list some resource.
pub open spec fn share(tasks: Seq<Task>, a: int, b: int) -> bool {
    exists|k: int|
        0 <= k < tasks[a].resources@.len() && tasks[b].declares(#[trigger] tasks[a].resources@[k])
}

/// Whether `a` and `b` are two tasks of the same priority that share a
/// resource.
pub open spec fn collide(tasks: Seq<Task>, a: int, b: int) -> bool {
    &&& 0 <= a < tasks.len()
    &&& 0 <= b < tasks.len()
    &&& a != b
    &&& tasks[a].priority == tasks[b].priority
    &&& share(tasks, a, b)
}

/// Whether the block names resource `r`.
pub fn names(block: &Vec<Stmt>, r: usize) -> (b: bool)
    ensures
        b == names_from(block@, 0, r),
    decreases block, 1int,
{
    let mut i: usize = 0;
    while i < block.len()
        invariant
            i <= block.len(),
            names_from(block@, 0, r) == names_from(block@, i as int, r),
        decreases block.len() - i,
    {
        if names_stmt(&block[i], r) {
            return true;
        }
        i += 1;
    }
    false
}

/// Whether `stmt`, or a statement inside it, names resource `r`.
fn names_stmt(stmt: &Stmt, r: usize) -> (b: bool)
    ensures
        b == stmt_names(*stmt, r),
    decreases stmt, 0int,
{
    match stmt {
        Stmt::Claim { resource, body } => *resource == r || names(body, r),
        Stmt::Branch { resource, bound, below, otherwise } => *resource == r || names(below, r) || names(
            otherwise,
            r,
        ),
        Stmt::Repeat { resource, body } => *resource == r || names(body, r),
        Stmt::Update { site, resource, delta, mode } => *resource == r,
    }
}

/// Whether a task other than `task` lists resource `r`.
pub fn is_shared(system: &System, task: usize, r: usize) -> (b: bool)
    ensures
        b == shared(system@.tasks, task, r),
{
    let n: usize = system.task_count();
    let mut t: usize = 0;
    while t < n
        invariant
            t <= n,
            n == system@.tasks.len(),
            forall|i: int| 0 <= i < t && i != task ==> !(#[trigger] system@.tasks[i]).declares(r),
        decreases n - t,
    {
        if t != task && system.task(t).declares(r) {
            return true;
        }
        t += 1;
    }
    false
}

/// The resources that `task` lists and shares with another task but that
/// `body` never names, in the order listed. Such a listing raises the ceiling
/// of the resource for a task that has no use for it.
pub fn neglected_resources(system: &System, task: usize, body: &Vec<Stmt>) -> (out: Vec<usize>)
    requires
        task < system@.tasks.len(),
    ensures
        out@ == system@.tasks[task as int].resources@.filter(
            |r: usize| neglected(system@.tasks, task, body@, r),
        ),
{
    let ghost list = system@.tasks[task as int].resources@;
    let ghost wanted = |r: usize| neglected(system@.tasks, task, body@, r);
    let mut out: Vec<usize> = Vec::new();
    let n: usize = system.task(task).resources.len();
    let mut k: usize = 0;
    proof {
        reveal(Seq::filter);
        assert(list.take(0).filter(wanted) =~= Seq::<usize>::empty());
    }
    while k < n
        invariant
            k <= n,
            n == list.len(),
            task < system@.tasks.len(),
            list == system@.tasks[task as int].resources@,
            wanted == (|r: usize| neglected(system@.tasks, task, body@, r)),
            out@ == list.take(k as int).filter(wanted),
        decreases n - k,
    {
        let r: usize = system.task(task).resources[k];
        let keep = is_shared(system, task, r) && !names(body, r);
        proof {
            reveal(Seq::filter);
            assert(list.take(k + 1).drop_last() =~= list.take(k as int));
            assert(list.take(k + 1).last() == r);
            assert(wanted(r) == keep);
        }
        if keep {
            out.push(r);
        }
        k += 1;
    }
    assert(list.take(n as int) =~= list);
    out
}

/// Whether tasks `a` and `b` are two tasks of the same priority that share
/// a resource.
pub fn collides(system: &System, a: usize, b: usize) -> (c: bool)
    ensures
        c == collide(system@.tasks, a as int, b as int),
{
    let n: usize = system.task_count();
    if a >= n || b >= n || a == b || system.task(a).priority != system.task(b).priority {
        return false;
    }
    let len: usize = system.task(a).resources.len();
    let mut k: usize = 0;
    while k < len
        invariant
            k <= len,
            a < system@.tasks.len(),
            b < system@.tasks.len(),
            a != b,
            system@.tasks[a as int].priority == system@.tasks[b as int].priority,
            len == system@.tasks[a as int].resources@.len(),
            forall|j: int|
                0 <= j < k ==> !system@.tasks[b as int].declares(
                    #[trigger] system@.tasks[a as int].resources@[j],
                ),
        decreases len - k,
    {
        if system.task(b).declares(system.task(a).resources[k]) {
            assert(system@.tasks[b as int].declares(system@.tasks[a as int].resources@[k as int]));
            return true;
        }
        k += 1;
    }
    false
}

/// Whether no two tasks of the same priority share a resource.
pub fn collision_free(system: &System) -> (free: bool)
    ensures
        free == forall|a: int, b: int| !collide(system@.tasks, a, b),
{
    let n: usize = system.task_count();
    let mut a: usize = 0;
    while a < n
        invariant
            a <= n,
            n == system@.tasks.len(),
            forall|i: int, j: int| 0 <= i < a ==> !collide(system@.tasks, i, j),
        decreases n - a,
    {
        let mut b: usize = 0;
        while b < n
            invariant
                a < n,
                b <= n,
                n == system@.tasks.len(),
                forall|i: int, j: int| 0 <= i < a ==> !collide(system@.tasks, i, j),
                forall|j: int| 0 <= j < b ==> !collide(system@.tasks, a as int, j),
            decreases n - b,
        {
            if collides(system, a, b) {
                return false;
            }
            b += 1;
        }
        a += 1;
    }
    true
}

} // verus!
