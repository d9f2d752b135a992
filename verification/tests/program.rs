use ipcp::body::{Outcome, Stmt};
use ipcp::config::{ConfigError, Resource, Task};
use ipcp::harness::{Run, TestVector};
use ipcp::program::{overall, Program, SetupError};
use ipcp::termination::Termination;
use ipcp::value::{Delta, Overflow, Width};

fn tasks() -> Vec<Task> {
    vec![
        Task { priority: 1, resources: vec![0, 1] },
        Task { priority: 3, resources: vec![1] },
        Task { priority: 2, resources: vec![0] },
    ]
}

fn resources() -> Vec<Resource> {
    vec![Resource { width: Width::W8, initial: 4 }, Resource { width: Width::W8, initial: 6 }]
}

fn add(site: u32, resource: usize, mode: Overflow) -> Stmt {
    Stmt::Update { site, resource, delta: Delta::Add(1), mode }
}

/// Task 0 adds to resource 1 where resource 0 is small; task 1 steps
/// resource 1 up or down; task 2 adds to resource 0.
fn bodies(mode: Overflow) -> Vec<Vec<Stmt>> {
    vec![
        vec![Stmt::Claim {
            resource: 0,
            body: vec![Stmt::Claim {
                resource: 1,
                body: vec![Stmt::Branch {
                    resource: 0,
                    bound: 10,
                    below: vec![add(1, 1, mode)],
                    otherwise: vec![],
                }],
            }],
        }],
        vec![Stmt::Branch {
            resource: 1,
            bound: 10,
            below: vec![add(2, 1, mode)],
            otherwise: vec![Stmt::Update {
                site: 3,
                resource: 1,
                delta: Delta::Sub(1),
                mode,
            }],
        }],
        vec![add(4, 0, mode)],
    ]
}

#[test]
fn program_needs_accepted_declarations() {
    let mut tasks = tasks();
    tasks[2].priority = 0;
    let e = Program::new(tasks, resources(), bodies(Overflow::Fault)).err();
    assert_eq!(e, Some(SetupError::Config(ConfigError::ZeroPriority { task: 2 })));
}

#[test]
fn program_needs_one_body_for_each_task() {
    let mut bodies = bodies(Overflow::Fault);
    bodies.pop();
    let e = Program::new(tasks(), resources(), bodies).err();
    assert_eq!(e, Some(SetupError::BodyCount { tasks: 3, bodies: 2 }));
}

#[test]
fn program_needs_bodies_that_fit() {
    let mut bodies = bodies(Overflow::Fault);
    // Task 1 does not list resource 0.
    bodies[1] = vec![add(9, 0, Overflow::Wrap)];
    // Task 2 is at the ceiling of resource 0, but task 1 comes first.
    bodies[2] = vec![add(9, 1, Overflow::Wrap)];
    let e = Program::new(tasks(), resources(), bodies).err();
    assert_eq!(e, Some(SetupError::Misfit { task: 1 }));
}

#[test]
fn replay_is_refused_for_unknown_task_and_inadmissible_values() {
    let mut program = Program::new(tasks(), resources(), bodies(Overflow::Fault)).unwrap();
    assert_eq!(program.replay(3, &vec![0, 0]), None);
    assert_eq!(program.replay(0, &vec![0]), None);
    assert_eq!(program.replay(0, &vec![0, 256]), None);
    assert_eq!(program.system().value(0), 4);
    assert_eq!(program.system().value(1), 6);
    let run = program.replay(0, &vec![3, 41]);
    assert_eq!(run, Some(Run { path: vec![true], outcome: Outcome::Completed }));
    assert_eq!(program.system().value(1), 42);
    assert!(program.system().is_idle());
}

#[test]
fn exploration_starts_from_the_initial_values_each_time() {
    let mut program = Program::new(tasks(), resources(), bodies(Overflow::Fault)).unwrap();
    let first = program.explore(2);
    program.replay(2, &vec![77, 88]);
    let second = program.explore(2);
    assert_eq!(first, second);
    // Task 2 lists resource 0 only: resource 1 keeps its initial value.
    assert_eq!(
        first,
        vec![
            TestVector { path: vec![], values: vec![0, 6], outcome: Outcome::Completed },
            TestVector { path: vec![], values: vec![255, 6], outcome: Outcome::Fault { site: 4 } },
        ]
    );
    assert_eq!(program.explore(3), vec![]);
}

#[test]
fn survey_finds_the_faults_of_checked_arithmetic() {
    let mut program = Program::new(tasks(), resources(), bodies(Overflow::Fault)).unwrap();
    let all = program.survey();
    assert_eq!(all.len(), 3);
    // Task 0: below the bound, at or above it, and the overflow of resource 1.
    assert_eq!(
        all[0],
        vec![
            TestVector { path: vec![true], values: vec![0, 0], outcome: Outcome::Completed },
            TestVector { path: vec![true], values: vec![0, 255], outcome: Outcome::Fault { site: 1 } },
            TestVector { path: vec![false], values: vec![10, 0], outcome: Outcome::Completed },
        ]
    );
    // Task 1: the addition is bounded by the branch, and the subtraction too.
    assert_eq!(
        all[1],
        vec![
            TestVector { path: vec![true], values: vec![4, 0], outcome: Outcome::Completed },
            TestVector { path: vec![false], values: vec![4, 10], outcome: Outcome::Completed },
        ]
    );
    assert_eq!(all[2].len(), 2);
    assert_eq!(overall(&all), Outcome::Fault { site: 1 });
    assert_eq!(overall(&all).report(), 1);
}

#[test]
fn survey_of_wrapping_arithmetic_is_clean() {
    let mut program = Program::new(tasks(), resources(), bodies(Overflow::Wrap)).unwrap();
    let all = program.survey();
    let counts: Vec<usize> = all.iter().map(|vectors| vectors.len()).collect();
    assert_eq!(counts, vec![2, 2, 1]);
    assert_eq!(overall(&all), Outcome::Completed);
    assert_eq!(overall(&all).report(), 0);
}

#[test]
fn body_is_kept_with_its_task() {
    let program = Program::new(tasks(), resources(), bodies(Overflow::Wrap)).unwrap();
    assert_eq!(program.body(2).len(), 1);
    assert_eq!(program.system().task_count(), 3);
}
