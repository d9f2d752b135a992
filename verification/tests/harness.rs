use ipcp::body::{Outcome, Stmt};
use ipcp::config::{Resource, Task};
use ipcp::harness::{check, explore, explore_with, record, replay, verdict, Run, TestVector};
use ipcp::system::System;
use ipcp::termination::Termination;
use ipcp::value::{Delta, Overflow, Width};

fn one_byte_resource() -> System {
    let tasks = vec![Task { priority: 1, resources: vec![0] }];
    let resources = vec![Resource { width: Width::W8, initial: 0 }];
    System::new(tasks, resources).unwrap()
}

fn increment(site: u32) -> Stmt {
    Stmt::Update { site, resource: 0, delta: Delta::Add(1), mode: Overflow::Fault }
}

#[test]
fn single_branch_has_exactly_two_paths() {
    let mut system = one_byte_resource();
    let body = vec![Stmt::Branch { resource: 0, bound: 10, below: vec![], otherwise: vec![] }];
    assert!(check(&system, 0, &body));
    let vectors = explore(&mut system, 0, &body);
    assert_eq!(
        vectors,
        vec![
            TestVector { path: vec![true], values: vec![0], outcome: Outcome::Completed },
            TestVector { path: vec![false], values: vec![10], outcome: Outcome::Completed },
        ]
    );
}

#[test]
fn bounded_increment_has_no_fault_path() {
    let mut system = one_byte_resource();
    let body = vec![Stmt::Branch {
        resource: 0,
        bound: 10,
        below: vec![increment(1)],
        otherwise: vec![],
    }];
    assert!(check(&system, 0, &body));
    let vectors = explore(&mut system, 0, &body);
    assert_eq!(vectors.len(), 2);
    assert!(vectors.iter().all(|v| v.outcome == Outcome::Completed));
    assert_eq!(verdict(&vectors), Outcome::Completed);
    assert_eq!(verdict(&vectors).report(), 0);
}

#[test]
fn unbounded_increment_faults_at_the_largest_value() {
    let mut system = one_byte_resource();
    let body = vec![increment(7)];
    assert!(check(&system, 0, &body));
    let vectors = explore(&mut system, 0, &body);
    assert_eq!(
        vectors,
        vec![
            TestVector { path: vec![], values: vec![0], outcome: Outcome::Completed },
            TestVector { path: vec![], values: vec![255], outcome: Outcome::Fault { site: 7 } },
        ]
    );
    assert_eq!(verdict(&vectors), Outcome::Fault { site: 7 });
    assert_eq!(verdict(&vectors).report(), 1);
}

#[test]
fn wrapping_increment_has_no_fault_path() {
    let mut system = one_byte_resource();
    let body = vec![Stmt::Update { site: 1, resource: 0, delta: Delta::Add(1), mode: Overflow::Wrap }];
    assert!(check(&system, 0, &body));
    let vectors = explore(&mut system, 0, &body);
    assert_eq!(vectors.len(), 1);
    assert_eq!(vectors[0].outcome, Outcome::Completed);
    // The largest value wraps to zero.
    let run = replay(&mut system, 0, &body, &vec![255]);
    assert_eq!(run, Run { path: vec![], outcome: Outcome::Completed });
    assert_eq!(system.value(0), 0);
}

#[test]
fn vectors_replay_to_their_own_outcome_every_time() {
    let mut system = one_byte_resource();
    let body = vec![
        Stmt::Branch {
            resource: 0,
            bound: 10,
            below: vec![increment(1)],
            otherwise: vec![Stmt::Update {
                site: 2,
                resource: 0,
                delta: Delta::Add(200),
                mode: Overflow::Fault,
            }],
        },
        increment(3),
    ];
    assert!(check(&system, 0, &body));
    let vectors = explore(&mut system, 0, &body);
    assert_eq!(vectors.len(), 4);
    for _ in 0..3 {
        for v in &vectors {
            assert!(system.is_idle());
            assert!(system.admits(&v.values));
            let run = replay(&mut system, 0, &body, &v.values);
            assert_eq!(run.path, v.path);
            assert_eq!(run.outcome, v.outcome);
        }
    }
}

#[test]
fn fault_is_reported_once_for_each_site() {
    // Both branches reach the same faulting site: one vector stands for it.
    let mut system = one_byte_resource();
    let body = vec![
        Stmt::Branch { resource: 0, bound: 255, below: vec![], otherwise: vec![] },
        Stmt::Update { site: 9, resource: 0, delta: Delta::Add(56), mode: Overflow::Fault },
    ];
    assert!(check(&system, 0, &body));
    let vectors = explore(&mut system, 0, &body);
    assert_eq!(
        vectors,
        vec![
            TestVector { path: vec![true], values: vec![0], outcome: Outcome::Completed },
            TestVector { path: vec![true], values: vec![200], outcome: Outcome::Fault { site: 9 } },
        ]
    );
}

#[test]
fn exploration_with_candidates_keeps_first_of_each_path() {
    let mut system = one_byte_resource();
    let body = vec![Stmt::Branch { resource: 0, bound: 10, below: vec![], otherwise: vec![] }];
    assert!(check(&system, 0, &body));
    let candidates = vec![vec![3], vec![4], vec![300], vec![12], vec![1, 2], vec![200]];
    let vectors = explore_with(&mut system, 0, &body, &candidates);
    assert_eq!(
        vectors,
        vec![
            TestVector { path: vec![true], values: vec![3], outcome: Outcome::Completed },
            TestVector { path: vec![false], values: vec![12], outcome: Outcome::Completed },
        ]
    );
}

#[test]
fn record_adds_a_vector_only_for_a_new_path() {
    let mut system = one_byte_resource();
    let body = vec![Stmt::Branch { resource: 0, bound: 10, below: vec![], otherwise: vec![] }];
    assert!(check(&system, 0, &body));
    let mut vectors = Vec::new();
    record(&mut system, 0, &body, &vec![5], &mut vectors);
    record(&mut system, 0, &body, &vec![6], &mut vectors);
    assert_eq!(vectors.len(), 1);
    record(&mut system, 0, &body, &vec![10], &mut vectors);
    assert_eq!(vectors.len(), 2);
    assert_eq!(vectors[1].values, vec![10]);
}

fn two_shared_resources() -> System {
    // Task 0 shares resource 0 with task 2 and resource 1 with task 1.
    let tasks = vec![
        Task { priority: 1, resources: vec![0, 1] },
        Task { priority: 3, resources: vec![1] },
        Task { priority: 2, resources: vec![0] },
    ];
    let resources = vec![
        Resource { width: Width::W8, initial: 0 },
        Resource { width: Width::W8, initial: 0 },
    ];
    System::new(tasks, resources).unwrap()
}

#[test]
fn nested_claims_leave_the_threshold_as_found() {
    let mut system = two_shared_resources();
    let body = vec![Stmt::Claim {
        resource: 0,
        body: vec![Stmt::Claim {
            resource: 1,
            body: vec![Stmt::Branch {
                resource: 0,
                bound: 10,
                below: vec![Stmt::Update {
                    site: 1,
                    resource: 1,
                    delta: Delta::Add(1),
                    mode: Overflow::Fault,
                }],
                otherwise: vec![],
            }],
        }],
    }];
    assert!(check(&system, 0, &body));
    let run = replay(&mut system, 0, &body, &vec![3, 41]);
    assert_eq!(run, Run { path: vec![true], outcome: Outcome::Completed });
    assert_eq!(system.value(1), 42);
    assert_eq!(system.threshold(), 0);
    assert!(system.is_idle());
    // A fault inside the claims releases them too.
    let run = replay(&mut system, 0, &body, &vec![3, 255]);
    assert_eq!(run, Run { path: vec![true], outcome: Outcome::Fault { site: 1 } });
    assert_eq!(system.value(1), 255);
    assert_eq!(system.threshold(), 0);
    assert!(system.is_idle());
}

#[test]
fn task_at_the_ceiling_needs_no_claim() {
    let mut system = two_shared_resources();
    // Task 1 has the ceiling priority of resource 1.
    let body = vec![Stmt::Update { site: 1, resource: 1, delta: Delta::Sub(1), mode: Overflow::Wrap }];
    assert!(check(&system, 1, &body));
    let run = replay(&mut system, 1, &body, &vec![0, 0]);
    assert_eq!(run.outcome, Outcome::Completed);
    assert_eq!(system.value(1), 255);
}

#[test]
fn body_that_bypasses_the_lock_does_not_fit() {
    let system = two_shared_resources();
    // Task 0 is below the ceiling of resource 0: it must claim.
    let bare = vec![increment(1)];
    assert!(!check(&system, 0, &bare));
    let claimed = vec![Stmt::Claim { resource: 0, body: vec![increment(1)] }];
    assert!(check(&system, 0, &claimed));
    // A claim on resource 0 reaches priority 2 only: resource 1 has ceiling 3.
    let too_low = vec![Stmt::Claim {
        resource: 0,
        body: vec![Stmt::Update { site: 1, resource: 1, delta: Delta::Add(1), mode: Overflow::Wrap }],
    }];
    assert!(!check(&system, 0, &too_low));
    // A claim on resource 1 reaches priority 3: resource 0 may be used inside.
    let high = vec![Stmt::Claim { resource: 1, body: vec![increment(1)] }];
    assert!(check(&system, 0, &high));
    // Task 1 does not list resource 0.
    let unlisted = vec![Stmt::Claim { resource: 0, body: vec![] }];
    assert!(!check(&system, 1, &unlisted));
    // No claim inside a claim on the same resource.
    let twice = vec![Stmt::Claim { resource: 0, body: vec![Stmt::Claim { resource: 0, body: vec![] }] }];
    assert!(!check(&system, 0, &twice));
    // An unknown task or resource fits nothing.
    assert!(!check(&system, 3, &claimed));
    let unknown = vec![Stmt::Claim { resource: 2, body: vec![] }];
    assert!(!check(&system, 0, &unknown));
}

#[test]
fn exploration_varies_listed_resources_only() {
    let mut system = two_shared_resources();
    // Task 2 lists resource 0 only; resource 1 keeps its value.
    let body = vec![Stmt::Branch { resource: 0, bound: 1, below: vec![], otherwise: vec![] }];
    assert!(check(&system, 2, &body));
    let vectors = explore(&mut system, 2, &body);
    assert_eq!(
        vectors,
        vec![
            TestVector { path: vec![true], values: vec![0, 0], outcome: Outcome::Completed },
            TestVector { path: vec![false], values: vec![1, 0], outcome: Outcome::Completed },
        ]
    );
}

#[test]
fn exploration_covers_the_product_of_two_domains() {
    let mut system = two_shared_resources();
    let body = vec![Stmt::Claim {
        resource: 1,
        body: vec![Stmt::Branch {
            resource: 0,
            bound: 10,
            below: vec![Stmt::Branch { resource: 1, bound: 20, below: vec![], otherwise: vec![] }],
            otherwise: vec![],
        }],
    }];
    assert!(check(&system, 0, &body));
    let vectors = explore(&mut system, 0, &body);
    let paths: Vec<Vec<bool>> = vectors.iter().map(|v| v.path.clone()).collect();
    assert_eq!(paths, vec![vec![true, true], vec![true, false], vec![false]]);
    assert_eq!(vectors[1].values, vec![0, 20]);
    assert_eq!(vectors[2].values, vec![10, 0]);
}

fn bounded_loop() -> Vec<Stmt> {
    // Claim both; where resource 0 is below ten, add one to resource 1 as
    // many times as resource 0 says.
    vec![Stmt::Claim {
        resource: 0,
        body: vec![Stmt::Claim {
            resource: 1,
            body: vec![Stmt::Branch {
                resource: 0,
                bound: 10,
                below: vec![Stmt::Repeat {
                    resource: 0,
                    body: vec![Stmt::Update {
                        site: 5,
                        resource: 1,
                        delta: Delta::Add(1),
                        mode: Overflow::Fault,
                    }],
                }],
                otherwise: vec![],
            }],
        }],
    }]
}

#[test]
fn loop_runs_as_often_as_the_resource_says() {
    let mut system = two_shared_resources();
    let body = bounded_loop();
    assert!(check(&system, 0, &body));
    let run = replay(&mut system, 0, &body, &vec![3, 5]);
    assert_eq!(run, Run { path: vec![true, true, true, true, false], outcome: Outcome::Completed });
    assert_eq!(system.value(1), 8);
    let run = replay(&mut system, 0, &body, &vec![0, 5]);
    assert_eq!(run, Run { path: vec![true, false], outcome: Outcome::Completed });
    assert_eq!(system.value(1), 5);
    // The second round overflows: the run ends there.
    let run = replay(&mut system, 0, &body, &vec![4, 254]);
    assert_eq!(run, Run { path: vec![true, true, true], outcome: Outcome::Fault { site: 5 } });
    assert_eq!(system.value(1), 255);
    assert!(system.is_idle());
}

#[test]
fn loop_gives_one_path_for_each_number_of_rounds() {
    let mut system = two_shared_resources();
    let body = bounded_loop();
    assert!(check(&system, 0, &body));
    let vectors = explore(&mut system, 0, &body);
    // Ten numbers of rounds, one fault at the one site, and the other branch.
    assert_eq!(vectors.len(), 12);
    assert_eq!(vectors[0], TestVector { path: vec![true, false], values: vec![0, 0], outcome: Outcome::Completed });
    assert_eq!(
        vectors[1],
        TestVector { path: vec![true, true, false], values: vec![1, 0], outcome: Outcome::Completed }
    );
    assert_eq!(
        vectors[2],
        TestVector { path: vec![true, true], values: vec![1, 255], outcome: Outcome::Fault { site: 5 } }
    );
    assert_eq!(vectors[11], TestVector { path: vec![false], values: vec![10, 0], outcome: Outcome::Completed });
    let faults = vectors.iter().filter(|v| v.outcome != Outcome::Completed).count();
    assert_eq!(faults, 1);
}

#[test]
fn loop_over_a_resource_out_of_reach_does_not_fit() {
    let system = two_shared_resources();
    let body = vec![Stmt::Repeat { resource: 0, body: vec![] }];
    assert!(!check(&system, 0, &body));
    assert!(check(&system, 2, &body));
}
