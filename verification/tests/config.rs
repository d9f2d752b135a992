use ipcp::config::{ceiling, ceilings, ConfigError, Resource, Task};
use ipcp::system::System;
use ipcp::value::Width;

fn byte(initial: u64) -> Resource {
    Resource { width: Width::W8, initial }
}

#[test]
fn ceiling_is_zero_for_a_resource_that_no_task_lists() {
    let tasks = vec![Task { priority: 4, resources: vec![0] }];
    assert_eq!(ceiling(&tasks, 0), 4);
    assert_eq!(ceiling(&tasks, 1), 0);
}

#[test]
fn table_holds_one_ceiling_for_each_resource() {
    let tasks = vec![
        Task { priority: 1, resources: vec![0, 1] },
        Task { priority: 3, resources: vec![1] },
        Task { priority: 2, resources: vec![0] },
    ];
    let resources = vec![byte(0), byte(0)];
    assert_eq!(ceilings(&tasks, &resources), Ok(vec![2, 3]));
}

#[test]
fn priority_zero_is_refused() {
    let tasks = vec![
        Task { priority: 1, resources: vec![0] },
        Task { priority: 0, resources: vec![0] },
    ];
    let e = System::new(tasks, vec![byte(0)]).err();
    assert_eq!(e, Some(ConfigError::ZeroPriority { task: 1 }));
}

#[test]
fn undeclared_resource_is_refused() {
    let tasks = vec![Task { priority: 1, resources: vec![0, 5, 7] }];
    let e = System::new(tasks, vec![byte(0)]).err();
    assert_eq!(e, Some(ConfigError::UnknownResource { task: 0, resource: 5 }));
}

#[test]
fn initial_value_outside_the_width_is_refused() {
    let tasks = vec![Task { priority: 1, resources: vec![0, 1] }];
    let e = System::new(tasks, vec![byte(255), byte(256)]).err();
    assert_eq!(e, Some(ConfigError::InitialOutOfRange { resource: 1 }));
}

#[test]
fn resource_without_accessing_task_is_refused() {
    let tasks = vec![Task { priority: 1, resources: vec![1] }];
    let e = System::new(tasks, vec![byte(0), byte(0)]).err();
    assert_eq!(e, Some(ConfigError::UnusedResource { resource: 0 }));
}

#[test]
fn task_faults_come_before_resource_faults() {
    let tasks = vec![Task { priority: 0, resources: vec![9] }];
    let e = System::new(tasks, vec![byte(999)]).err();
    assert_eq!(e, Some(ConfigError::ZeroPriority { task: 0 }));
}

#[test]
fn new_system_is_idle_with_initial_values() {
    let tasks = vec![Task { priority: 2, resources: vec![0, 1] }];
    let resources = vec![byte(7), Resource { width: Width::W64, initial: u64::MAX }];
    let system = System::new(tasks, resources).unwrap();
    assert!(system.is_idle());
    assert_eq!(system.task_count(), 1);
    assert_eq!(system.resource_count(), 2);
    assert_eq!(system.value(0), 7);
    assert_eq!(system.value(1), u64::MAX);
    assert_eq!(system.ceiling(0), 2);
    assert_eq!(system.threshold(), 0);
    assert_eq!(system.level(), 0);
    assert_eq!(system.current(), None);
    assert_eq!(system.task(0).priority, 2);
    assert_eq!(system.resource(1).initial, u64::MAX);
}

#[test]
fn system_without_tasks_or_resources_is_accepted() {
    let system = System::new(vec![], vec![]).unwrap();
    assert!(system.is_idle());
    assert_eq!(system.task_count(), 0);
}
