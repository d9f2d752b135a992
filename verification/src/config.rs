//! Static declarations: tasks with their priorities and resource lists,
//! resources with their value domains, and the priority ceiling that the
//! declarations give each resource.
//!
//! A task is identified by its position in the task list and a resource by its
//! position in the resource list.

use vstd::prelude::*;
use crate::value::Width;

verus! {

/// A task: its static priority (higher is more urgent, zero is kept for the
/// idle context) and the resources it may access, in the order declared.
#[derive(Debug)]
pub struct Task {
    pub priority: u8,
    pub resources: Vec<usize>,
}

/// A shared resource: the width of its value and the value it starts with.
#[derive(Clone, Copy, Debug)]
pub struct Resource {
    pub width: Width,
    pub initial: u64,
}

/// Why a set of declarations is refused.
#[derive(Clone, Copy, Debug, PartialEq, Eq)]
pub enum ConfigError {
    /// The task has priority zero, which belongs to the idle context.
    ZeroPriority { task: usize },
    /// The task lists a resource that is not declared.
    UnknownResource { task: usize, resource: usize },
    /// The resource's initial value does not fit its width.
    InitialOutOfRange { resource: usize },
    /// No task lists the resource.
    UnusedResource { resource: usize },
}

impl Task {
    /// Whether the task lists resource `r`.
    pub open spec fn spec_declares(&self, r: usize) -> bool {
        self.resources@.contains(r)
    }

    /// Whether the task lists resource `r`.
    #[verifier::when_used_as_spec(spec_declares)]
    pub fn declares(&self, r: usize) -> (b: bool)
        ensures
            b == self.spec_declares(r),
    {
        let mut k: usize = 0;
        while k < self.resources.len()
            invariant
                k <= self.resources.len(),
                forall|j: int| 0 <= j < k ==> self.resources@[j] != r,
            decreases self.resources.len() - k,
        {
            if self.resources[k] == r {
                return true;
            }
            k += 1;
        }
        false
    }

    /// A positive priority, and only resources below `n` listed.
    pub open spec fn valid(&self, n: nat) -> bool {
        &&& self.priority >= 1
        &&& forall|k: int| 0 <= k < self.resources@.len() ==> self.resources@[k] < n
    }
}

/// Whether some task lists resource `r`.
pub open spec fn declared(tasks: Seq<Task>, r: usize) -> bool {
    exists|t: int| 0 <= t < tasks.len() && #[trigger] tasks[t].declares(r)
}

/// `c` is the priority ceiling of resource `r`: the highest priority among the
/// tasks that list it, and zero where none does.
pub open spec fn is_ceiling(tasks: Seq<Task>, r: usize, c: u8) -> bool {
    &&& forall|t: int| 0 <= t < tasks.len() && #[trigger] tasks[t].declares(r) ==> tasks[t].priority <= c
    &&& c == 0 || exists|t: int|
        0 <= t < tasks.len() && #[trigger] tasks[t].declares(r) && tasks[t].priority == c
}

/// The priority ceiling of resource `r`.
pub open spec fn ceiling_of(tasks: Seq<Task>, r: usize) -> u8 {
    choose|c: u8| is_ceiling(tasks, r, c)
}

/// The table of the priority ceilings of `n` resources.
pub open spec fn table_of(tasks: Seq<Task>, n: nat) -> Seq<u8> {
    Seq::new(n, |r: int| ceiling_of(tasks, r as usize))
}

/// A resource has one priority ceiling.
pub proof fn law_ceiling_unique(tasks: Seq<Task>, r: usize, a: u8, b: u8)
    requires
        is_ceiling(tasks, r, a),
        is_ceiling(tasks, r, b),
    ensures
        a == b,
        ceiling_of(tasks, r) == a,
{
    if a < b {
        let t = choose|t: int| 0 <= t < tasks.len() && #[trigger] tasks[t].declares(r) && tasks[t].priority == b;
        assert(tasks[t].priority <= a);
    } else if b < a {
        let t = choose|t: int| 0 <= t < tasks.len() && #[trigger] tasks[t].declares(r) && tasks[t].priority == a;
        assert(tasks[t].priority <= b);
    }
    let c = ceiling_of(tasks, r);
    assert(is_ceiling(tasks, r, c));
    if a < c {
        let t = choose|t: int| 0 <= t < tasks.len() && #[trigger] tasks[t].declares(r) && tasks[t].priority == c;
        assert(tasks[t].priority <= a);
    } else if c < a {
        let t = choose|t: int| 0 <= t < tasks.len() && #[trigger] tasks[t].declares(r) && tasks[t].priority == a;
        assert(tasks[t].priority <= c);
    }
}

/// The declarations that are accepted: every task valid, every resource
/// listed by some task and starting within its width.
pub open spec fn accepted(tasks: Seq<Task>, resources: Seq<Resource>) -> bool {
    &&& forall|t: int| 0 <= t < tasks.len() ==> (#[trigger] tasks[t]).valid(resources.len())
    &&& forall|r: int| 0 <= r < resources.len() ==> resource_ok(tasks, resources, r)
}

/// Resource `r` starts within its width and some task lists it.
pub open spec fn resource_ok(tasks: Seq<Task>, resources: Seq<Resource>, r: int) -> bool {
    &&& resources[r].width.holds(resources[r].initial)
    &&& declared(tasks, r as usize)
}

/// `list[k]` is `resource`, which is not below `n`, and every earlier entry is.
pub open spec fn first_outside(list: Seq<usize>, n: nat, k: int, resource: usize) -> bool {
    &&& 0 <= k < list.len()
    &&& list[k] == resource
    &&& resource >= n
    &&& forall|j: int| 0 <= j < k ==> list[j] < n
}

/// `e` is the first fault of the declarations: tasks come before resources,
/// a lower position before a higher one, a task's priority before its list,
/// and a resource's initial value before its use.
pub open spec fn first_fault(tasks: Seq<Task>, resources: Seq<Resource>, e: ConfigError) -> bool {
    let n = resources.len();
    match e {
        ConfigError::ZeroPriority { task } => {
            &&& task < tasks.len()
            &&& forall|t: int| 0 <= t < task ==> (#[trigger] tasks[t]).valid(n)
            &&& tasks[task as int].priority == 0
        },
        ConfigError::UnknownResource { task, resource } => {
            &&& task < tasks.len()
            &&& forall|t: int| 0 <= t < task ==> (#[trigger] tasks[t]).valid(n)
            &&& tasks[task as int].priority >= 1
            &&& exists|k: int| #[trigger] first_outside(tasks[task as int].resources@, n, k, resource)
        },
        ConfigError::InitialOutOfRange { resource } => {
            &&& forall|t: int| 0 <= t < tasks.len() ==> (#[trigger] tasks[t]).valid(n)
            &&& resource < n
            &&& forall|r: int| 0 <= r < resource ==> resource_ok(tasks, resources, r)
            &&& !resources[resource as int].width.holds(resources[resource as int].initial)
        },
        ConfigError::UnusedResource { resource } => {
            &&& forall|t: int| 0 <= t < tasks.len() ==> (#[trigger] tasks[t]).valid(n)
            &&& resource < n
            &&& forall|r: int| 0 <= r < resource ==> resource_ok(tasks, resources, r)
            &&& resources[resource as int].width.holds(resources[resource as int].initial)
            &&& !declared(tasks, resource)
        },
    }
}

/// Declarations with a fault are not accepted.
pub proof fn law_fault_refuses(tasks: Seq<Task>, resources: Seq<Resource>, e: ConfigError)
    requires
        first_fault(tasks, resources, e),
    ensures
        !accepted(tasks, resources),
{
    let n = resources.len();
    match e {
        ConfigError::ZeroPriority { task } => {
            assert(!tasks[task as int].valid(n));
        },
        ConfigError::UnknownResource { task, resource } => {
            let k = choose|k: int| #[trigger] first_outside(tasks[task as int].resources@, n, k, resource);
            assert(tasks[task as int].resources@[k] >= n);
            assert(!tasks[task as int].valid(n));
        },
        ConfigError::InitialOutOfRange { resource } => {
            assert(!resource_ok(tasks, resources, resource as int));
        },
        ConfigError::UnusedResource { resource } => {
            assert(!resource_ok(tasks, resources, resource as int));
        },
    }
}

/// Declarations have at most one first fault.
pub proof fn law_first_fault_unique(tasks: Seq<Task>, resources: Seq<Resource>, a: ConfigError, b: ConfigError)
    requires
        first_fault(tasks, resources, a),
        first_fault(tasks, resources, b),
    ensures
        a == b,
{
    let n = resources.len();
    if fault_of_task(a) && fault_of_task(b) {
        let ta = faulty_task(a);
        let tb = faulty_task(b);
        assert(!tasks[ta as int].valid(n)) by {
            lemma_task_fault(tasks, resources, a);
        }
        assert(!tasks[tb as int].valid(n)) by {
            lemma_task_fault(tasks, resources, b);
        }
        assert(ta == tb);
        if a is UnknownResource && b is UnknownResource {
            let list = tasks[ta as int].resources@;
            let ka = choose|k: int| #[trigger] first_outside(list, n, k, a->UnknownResource_resource);
            let kb = choose|k: int| #[trigger] first_outside(list, n, k, b->UnknownResource_resource);
            assert(ka == kb) by {
                if ka < kb {
                    assert(list[ka] < n);
                } else if kb < ka {
                    assert(list[kb] < n);
                }
            }
        }
    } else if fault_of_task(a) {
        lemma_task_fault(tasks, resources, a);
    } else if fault_of_task(b) {
        lemma_task_fault(tasks, resources, b);
    } else {
        let ra = faulty_resource(a);
        let rb = faulty_resource(b);
        assert(!resource_ok(tasks, resources, ra as int));
        assert(!resource_ok(tasks, resources, rb as int));
        assert(ra == rb);
    }
}

/// Whether the fault is one of a task.
pub open spec fn fault_of_task(e: ConfigError) -> bool {
    e is ZeroPriority || e is UnknownResource
}

/// The task of a fault of a task.
pub open spec fn faulty_task(e: ConfigError) -> usize {
    match e {
        ConfigError::ZeroPriority { task } => task,
        ConfigError::UnknownResource { task, resource } => task,
        _ => 0,
    }
}

/// The resource of a fault of a resource.
pub open spec fn faulty_resource(e: ConfigError) -> usize {
    match e {
        ConfigError::InitialOutOfRange { resource } => resource,
        ConfigError::UnusedResource { resource } => resource,
        _ => 0,
    }
}

/// The task of a first fault is declared and not valid.
proof fn lemma_task_fault(tasks: Seq<Task>, resources: Seq<Resource>, e: ConfigError)
    requires
        first_fault(tasks, resources, e),
        fault_of_task(e),
    ensures
        faulty_task(e) < tasks.len(),
        !tasks[faulty_task(e) as int].valid(resources.len()),
        forall|t: int| 0 <= t < faulty_task(e) ==> (#[trigger] tasks[t]).valid(resources.len()),
{
    let n = resources.len();
    match e {
        ConfigError::UnknownResource { task, resource } => {
            let k = choose|k: int| #[trigger] first_outside(tasks[task as int].resources@, n, k, resource);
            assert(tasks[task as int].resources@[k] >= n);
        },
        _ => {},
    }
}

/// The priority ceiling of resource `r` under the given task declarations.
pub fn ceiling(tasks: &Vec<Task>, r: usize) -> (c: u8)
    ensures
        is_ceiling(tasks@, r, c),
        c == ceiling_of(tasks@, r),
{
    let mut c: u8 = 0;
    let mut t: usize = 0;
    while t < tasks.len()
        invariant
            t <= tasks.len(),
            forall|i: int| 0 <= i < t && #[trigger] tasks@[i].declares(r) ==> tasks@[i].priority <= c,
            c == 0 || exists|i: int| 0 <= i < t && #[trigger] tasks@[i].declares(r) && tasks@[i].priority == c,
        decreases tasks.len() - t,
    {
        if tasks[t].declares(r) && tasks[t].priority > c {
            c = tasks[t].priority;
        }
        t += 1;
    }
    proof {
        law_ceiling_unique(tasks@, r, c, c);
    }
    c
}

/// Checks the declarations and computes the table of priority ceilings, one
/// entry per resource.
pub fn ceilings(tasks: &Vec<Task>, resources: &Vec<Resource>) -> (result: Result<Vec<u8>, ConfigError>)
    ensures
        match result {
            Ok(table) => {
                &&& accepted(tasks@, resources@)
                &&& table@ == table_of(tasks@, resources@.len())
                &&& forall|r: int| 0 <= r < table@.len() ==> is_ceiling(tasks@, r as usize, #[trigger] table@[r])
            },
            Err(e) => first_fault(tasks@, resources@, e),
        },
{
    let n: usize = resources.len();
    let mut t: usize = 0;
    while t < tasks.len()
        invariant
            t <= tasks.len(),
            n == resources@.len(),
            forall|i: int| 0 <= i < t ==> (#[trigger] tasks@[i]).valid(resources@.len()),
        decreases tasks.len() - t,
    {
        if tasks[t].priority == 0 {
            return Err(ConfigError::ZeroPriority { task: t });
        }
        let mut k: usize = 0;
        while k < tasks[t].resources.len()
            invariant
                t < tasks.len(),
                n == resources@.len(),
                tasks@[t as int].priority >= 1,
                k <= tasks@[t as int].resources@.len(),
                forall|i: int| 0 <= i < t ==> (#[trigger] tasks@[i]).valid(resources@.len()),
                forall|j: int| 0 <= j < k ==> tasks@[t as int].resources@[j] < n,
            decreases tasks@[t as int].resources@.len() - k,
        {
            let resource: usize = tasks[t].resources[k];
            if resource >= n {
                let e = ConfigError::UnknownResource { task: t, resource };
                assert(first_outside(
                    tasks@[e->UnknownResource_task as int].resources@,
                    resources@.len(),
                    k as int,
                    e->UnknownResource_resource,
                ));
                return Err(e);
            }
            k += 1;
        }
        t += 1;
    }
    let mut table: Vec<u8> = Vec::new();
    let mut r: usize = 0;
    while r < n
        invariant
            r <= n,
            n == resources@.len(),
            table@.len() == r,
            forall|i: int| 0 <= i < tasks@.len() ==> (#[trigger] tasks@[i]).valid(resources@.len()),
            forall|i: int| 0 <= i < r ==> resource_ok(tasks@, resources@, i),
            forall|i: int| 0 <= i < r ==> is_ceiling(tasks@, i as usize, #[trigger] table@[i]),
            forall|i: int| 0 <= i < r ==> table@[i] == ceiling_of(tasks@, i as usize),
        decreases n - r,
    {
        if !resources[r].width.contains(resources[r].initial) {
            return Err(ConfigError::InitialOutOfRange { resource: r });
        }
        let c: u8 = ceiling(tasks, r);
        if c == 0 {
            return Err(ConfigError::UnusedResource { resource: r });
        }
        table.push(c);
        r += 1;
    }
    assert(table@ =~= table_of(tasks@, resources@.len()));
    Ok(table)
}

} // verus!
