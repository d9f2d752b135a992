use ipcp::audit::{collides, collision_free, is_shared, names, neglected_resources};
use ipcp::body::Stmt;
use ipcp::config::{Resource, Task};
use ipcp::system::System;
use ipcp::value::{Delta, Overflow, Width};

fn system() -> System {
    let tasks = vec![
        Task { priority: 1, resources: vec![0, 1, 2] },
        Task { priority: 1, resources: vec![0] },
        Task { priority: 2, resources: vec![1] },
        Task { priority: 2, resources: vec![] },
    ];
    let resources = vec![
        Resource { width: Width::W8, initial: 0 },
        Resource { width: Width::W8, initial: 0 },
        Resource { width: Width::W8, initial: 0 },
    ];
    System::new(tasks, resources).unwrap()
}

#[test]
fn body_names_the_resources_of_all_its_statements() {
    let body = vec![Stmt::Claim {
        resource: 1,
        body: vec![Stmt::Branch {
            resource: 2,
            bound: 1,
            below: vec![],
            otherwise: vec![Stmt::Update {
                site: 1,
                resource: 3,
                delta: Delta::Add(1),
                mode: Overflow::Wrap,
            }],
        }],
    }];
    assert!(!names(&body, 0));
    assert!(names(&vec![Stmt::Repeat { resource: 4, body: vec![] }], 4));
    assert!(names(&body, 1));
    assert!(names(&body, 2));
    assert!(names(&body, 3));
}

#[test]
fn shared_listing_that_the_body_never_names_is_neglected() {
    let system = system();
    assert!(is_shared(&system, 0, 0));
    assert!(is_shared(&system, 0, 1));
    assert!(!is_shared(&system, 0, 2));
    let body = vec![Stmt::Update { site: 1, resource: 0, delta: Delta::Add(1), mode: Overflow::Wrap }];
    // Resource 1 is shared and not named; resource 2 is not named but not shared.
    assert_eq!(neglected_resources(&system, 0, &body), vec![1]);
    assert_eq!(neglected_resources(&system, 0, &vec![]), vec![0, 1]);
    assert_eq!(neglected_resources(&system, 1, &body), Vec::<usize>::new());
}

#[test]
fn equal_priorities_that_share_a_resource_collide() {
    let system = system();
    assert!(collides(&system, 0, 1));
    assert!(collides(&system, 1, 0));
    assert!(!collides(&system, 0, 0));
    // Tasks 0 and 2 share resource 1 at different priorities.
    assert!(!collides(&system, 0, 2));
    // Tasks 2 and 3 have equal priority and share nothing.
    assert!(!collides(&system, 2, 3));
    assert!(!collides(&system, 0, 9));
    assert!(!collision_free(&system));
}

#[test]
fn distinct_priorities_are_collision_free() {
    let tasks = vec![
        Task { priority: 1, resources: vec![0] },
        Task { priority: 2, resources: vec![0] },
    ];
    let system = System::new(tasks, vec![Resource { width: Width::W8, initial: 0 }]).unwrap();
    assert!(collision_free(&system));
}
