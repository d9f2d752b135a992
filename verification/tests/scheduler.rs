use ipcp::config::{Resource, Task};
use ipcp::model::{Effect, Event, Masking, TaskState};
use ipcp::system::System;
use ipcp::value::{Delta, Overflow, Width};

fn three_tasks_one_resource() -> System {
    let tasks = vec![
        Task { priority: 1, resources: vec![0] },
        Task { priority: 3, resources: vec![0] },
        Task { priority: 2, resources: vec![0] },
    ];
    let resources = vec![Resource { width: Width::W32, initial: 0 }];
    System::new(tasks, resources).unwrap()
}

#[test]
fn ceiling_is_highest_priority_among_accessors() {
    let system = three_tasks_one_resource();
    assert_eq!(system.ceiling(0), 3);
}

#[test]
fn higher_priority_waits_for_claim_region_to_end() {
    let mut system = three_tasks_one_resource();
    assert!(system.activate(0));
    assert_eq!(system.current(), Some(0));
    assert!(system.may_claim(0));
    assert_eq!(system.claim(0), Masking::Mask(3));
    assert_eq!(system.threshold(), 3);
    // B arrives inside A's claim region: it is masked.
    assert!(!system.activate(1));
    assert_eq!(system.task_state(1), TaskState::Pending);
    assert_eq!(system.current(), Some(0));
    // C arrives too.
    assert!(!system.activate(2));
    // The release is the boundary at which B preempts.
    assert!(system.holds_any());
    let out = system.release();
    assert_eq!(out, Effect { masking: Masking::Unmask(0), started: Some(1) });
    assert_eq!(system.current(), Some(1));
    assert_eq!(system.task_state(0), TaskState::Running);
    // B is at the ceiling: its claim changes nothing.
    assert!(system.may_claim(0));
    assert_eq!(system.claim(0), Masking::Keep);
    assert_eq!(system.threshold(), 0);
    let out = system.release();
    assert_eq!(out, Effect { masking: Masking::Keep, started: None });
    // B returns; C is next, and A resumes only after it.
    assert_eq!(system.complete(), Some(2));
    assert_eq!(system.current(), Some(2));
    assert_eq!(system.complete(), None);
    assert_eq!(system.current(), Some(0));
    assert_eq!(system.complete(), None);
    assert!(system.is_idle());
}

#[test]
fn higher_priority_preempts_outside_the_claim_region() {
    let mut system = three_tasks_one_resource();
    assert!(system.activate(0));
    assert!(system.activate(1));
    assert_eq!(system.current(), Some(1));
    assert_eq!(system.task_state(0), TaskState::Running);
    assert_eq!(system.level(), 3);
    // The preempted task is below: the executing one returns first.
    assert_eq!(system.complete(), None);
    assert_eq!(system.current(), Some(0));
}

#[test]
fn no_task_under_the_ceiling_starts_while_the_resource_is_held() {
    let mut system = three_tasks_one_resource();
    assert!(system.activate(0));
    system.claim(0);
    for task in 0..3 {
        assert!(!system.activate(task));
        assert_eq!(system.current(), Some(0));
    }
    assert_eq!(system.level(), 3);
}

fn equal_priorities() -> System {
    let tasks = vec![
        Task { priority: 1, resources: vec![0] },
        Task { priority: 1, resources: vec![0] },
        Task { priority: 1, resources: vec![0] },
    ];
    let resources = vec![Resource { width: Width::W64, initial: 0 }];
    System::new(tasks, resources).unwrap()
}

#[test]
fn equal_priority_never_preempts() {
    let mut system = equal_priorities();
    assert!(system.activate(1));
    assert!(!system.activate(0));
    assert!(!system.activate(2));
    assert_eq!(system.task_state(0), TaskState::Pending);
    assert_eq!(system.task_state(1), TaskState::Running);
    // At the ceiling no claim is needed, and a claim changes nothing.
    assert!(system.may_access(0));
    assert_eq!(system.claim(0), Masking::Keep);
    assert_eq!(system.release(), Effect { masking: Masking::Keep, started: None });
}

#[test]
fn pending_tasks_of_equal_priority_start_in_order_of_arrival() {
    let mut system = equal_priorities();
    assert!(system.activate(1));
    assert!(!system.activate(2));
    assert!(!system.activate(0));
    assert_eq!(system.complete(), Some(2));
    assert_eq!(system.complete(), Some(0));
    assert_eq!(system.complete(), None);
    assert!(system.is_idle());
}

#[test]
fn activation_of_a_running_task_is_recorded_once() {
    let mut system = equal_priorities();
    assert!(system.activate(0));
    assert!(!system.activate(0));
    assert!(!system.activate(0));
    assert_eq!(system.task_state(0), TaskState::Running);
    // It runs once more after it has returned, not twice.
    assert_eq!(system.complete(), Some(0));
    assert_eq!(system.complete(), None);
    assert_eq!(system.task_state(0), TaskState::Dormant);
}

fn nested() -> System {
    let tasks = vec![
        Task { priority: 1, resources: vec![0, 1, 2] },
        Task { priority: 2, resources: vec![0] },
        Task { priority: 4, resources: vec![1] },
        Task { priority: 3, resources: vec![2] },
    ];
    let resources = vec![
        Resource { width: Width::W8, initial: 0 },
        Resource { width: Width::W8, initial: 0 },
        Resource { width: Width::W8, initial: 0 },
    ];
    System::new(tasks, resources).unwrap()
}

#[test]
fn each_release_restores_the_threshold_of_its_claim() {
    let mut system = nested();
    assert!(system.activate(0));
    assert_eq!(system.claim(0), Masking::Mask(2));
    assert_eq!(system.claim(1), Masking::Mask(4));
    // Ceiling 3 is under the threshold: granted with no change.
    assert_eq!(system.claim(2), Masking::Keep);
    assert_eq!(system.threshold(), 4);
    assert!(system.holds(0) && system.holds(1) && system.holds(2));
    assert!(!system.may_claim(1));
    assert_eq!(system.release().masking, Masking::Keep);
    assert_eq!(system.threshold(), 4);
    assert_eq!(system.release().masking, Masking::Unmask(2));
    assert_eq!(system.threshold(), 2);
    assert_eq!(system.release().masking, Masking::Unmask(0));
    assert_eq!(system.threshold(), 0);
    assert!(!system.holds_any());
}

#[test]
fn pending_task_starts_at_the_release_that_unmasks_it() {
    let mut system = nested();
    assert!(system.activate(0));
    system.claim(0);
    system.claim(1);
    // Priority 3 is masked by threshold 4, priority 2 as well.
    assert!(!system.activate(3));
    assert!(!system.activate(1));
    // Back to threshold 2: task 3 starts, task 1 still waits.
    let out = system.release();
    assert_eq!(out, Effect { masking: Masking::Unmask(2), started: Some(3) });
    assert_eq!(system.current(), Some(3));
    assert_eq!(system.holder(0), Some(0));
    assert_eq!(system.holder(1), None);
    // Task 3 does not list resource 0, which task 0 holds.
    assert!(!system.may_claim(0));
    assert!(!system.may_access(0));
    assert!(system.may_access(2));
    assert_eq!(system.complete(), None);
    assert_eq!(system.current(), Some(0));
    // The last release lets task 1 through.
    let out = system.release();
    assert_eq!(out, Effect { masking: Masking::Unmask(0), started: Some(1) });
    assert_eq!(system.complete(), None);
    assert_eq!(system.complete(), None);
    assert!(system.is_idle());
}

#[test]
fn access_goes_through_the_lock_manager() {
    let mut system = nested();
    assert!(system.activate(0));
    assert!(!system.may_access(0));
    system.claim(0);
    assert!(system.may_access(0));
    // Resource 2 has ceiling 3, above the level reached.
    assert!(!system.may_access(2));
    system.write(0, 41);
    assert_eq!(system.read(0), 41);
    assert_eq!(system.update(0, Delta::Add(1), Overflow::Fault), Some(42));
    assert_eq!(system.update(0, Delta::Add(214), Overflow::Fault), None);
    assert_eq!(system.value(0), 42);
    assert_eq!(system.update(0, Delta::Add(214), Overflow::Wrap), Some(0));
    system.release();
    system.complete();
    assert_eq!(system.value(0), 0);
}

#[test]
fn values_are_set_while_nothing_runs() {
    let mut system = nested();
    assert!(system.admits(&vec![1, 2, 3]));
    assert!(!system.admits(&vec![1, 2]));
    assert!(!system.admits(&vec![1, 2, 256]));
    system.assign(&vec![1, 2, 3]);
    system.load(1, 9);
    assert_eq!((system.value(0), system.value(1), system.value(2)), (1, 9, 3));
}

#[test]
fn events_say_what_to_mask_and_which_task_started() {
    let mut system = three_tasks_one_resource();
    let events = [
        (Event::Activate { task: 0 }, Effect { masking: Masking::Keep, started: Some(0) }),
        (Event::Claim { resource: 0 }, Effect { masking: Masking::Mask(3), started: None }),
        (Event::Activate { task: 2 }, Effect { masking: Masking::Keep, started: None }),
        (Event::Write { resource: 0, value: 5 }, Effect { masking: Masking::Keep, started: None }),
        (Event::Release, Effect { masking: Masking::Unmask(0), started: Some(2) }),
        (Event::Complete, Effect { masking: Masking::Keep, started: None }),
        (Event::Complete, Effect { masking: Masking::Keep, started: None }),
    ];
    for (event, effect) in events {
        assert!(system.allows(event));
        assert_eq!(system.step(event), effect);
    }
    assert!(system.is_idle());
    assert_eq!(system.value(0), 5);
}

#[test]
fn events_out_of_turn_are_not_allowed() {
    let mut system = three_tasks_one_resource();
    assert!(!system.allows(Event::Activate { task: 3 }));
    assert!(!system.allows(Event::Claim { resource: 0 }));
    assert!(!system.allows(Event::Release));
    assert!(!system.allows(Event::Complete));
    assert!(!system.allows(Event::Write { resource: 0, value: 1 }));
    system.activate(1);
    assert!(system.allows(Event::Write { resource: 0, value: 1 }));
    assert!(!system.allows(Event::Write { resource: 0, value: 1 << 32 }));
    assert!(!system.allows(Event::Claim { resource: 1 }));
    system.claim(0);
    assert!(!system.allows(Event::Claim { resource: 0 }));
    assert!(!system.allows(Event::Complete));
    assert!(system.allows(Event::Release));
}

#[test]
fn critical_section_claims_and_releases_around_its_body() {
    let mut system = nested();
    assert!(system.activate(0));
    system.claim(0);
    assert_eq!(system.threshold(), 2);
    assert!(system.may_claim(1));
    let (computed, started) = system.critical(1, |value| value + 300);
    assert_eq!(computed, 300);
    assert_eq!(started, None);
    // What the body returned is stored within the width of the resource.
    assert_eq!(system.value(1), 44);
    assert_eq!(system.threshold(), 2);
    assert!(!system.holds(1));
    assert!(system.holds(0));
}
