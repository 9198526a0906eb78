use bevy_app::access::{contains_slot, slots_overlap};
use bevy_app::{Access, Container, Slot, StagePlan};

fn world(key: u64) -> Slot {
    Slot { container: Container::World, key }
}

fn resource(key: u64) -> Slot {
    Slot { container: Container::Resources, key }
}

#[test]
fn a_new_access_touches_nothing() {
    let a = Access::new();
    assert!(a.reads.is_empty());
    assert!(a.writes.is_empty());
}

#[test]
fn read_and_write_append_in_order() {
    let a = Access::new().write(resource(2)).read(resource(1)).write(world(2)).read(world(1));
    assert_eq!(a.reads, vec![resource(1), world(1)]);
    assert_eq!(a.writes, vec![resource(2), world(2)]);
    let b = a.duplicate();
    assert_eq!(b.reads, a.reads);
    assert_eq!(b.writes, a.writes);
}

#[test]
fn contains_and_overlap() {
    let xs = vec![resource(1), world(1)];
    assert!(contains_slot(&xs, world(1)));
    assert!(!contains_slot(&xs, world(2)));
    assert!(!contains_slot(&vec![], world(2)));
    assert!(slots_overlap(&xs, &vec![world(3), world(1)]));
    assert!(!slots_overlap(&xs, &vec![world(3), resource(2)]));
    assert!(!slots_overlap(&xs, &vec![]));
    assert!(!slots_overlap(&vec![], &xs));
}

#[test]
fn readers_of_one_slot_do_not_conflict() {
    let a = Access::new().read(resource(1));
    let b = Access::new().read(resource(1));
    assert!(!a.conflicts_with(&b));
    assert!(!b.conflicts_with(&a));
}

#[test]
fn a_writer_conflicts_with_readers_and_writers_of_its_slot() {
    let writer = Access::new().write(resource(1));
    let reader = Access::new().read(resource(1));
    let other_writer = Access::new().read(resource(2)).write(resource(1));
    let elsewhere = Access::new().write(world(1)).read(resource(2));
    assert!(writer.conflicts_with(&reader));
    assert!(reader.conflicts_with(&writer));
    assert!(writer.conflicts_with(&other_writer));
    assert!(writer.conflicts_with(&writer));
    assert!(!writer.conflicts_with(&elsewhere));
    assert!(!elsewhere.conflicts_with(&writer));
}

#[test]
fn the_same_key_in_the_other_container_is_another_slot() {
    let a = Access::new().write(resource(1));
    let b = Access::new().write(world(1));
    assert!(!a.conflicts_with(&b));
}

#[test]
fn the_plan_of_no_systems_has_no_stage() {
    let plan = StagePlan::compile(&vec![]);
    assert!(plan.order().is_empty());
    assert_eq!(plan.bounds(), &vec![0]);
    assert!(plan.stage_of().is_empty());
}

#[test]
fn systems_that_do_not_conflict_share_the_first_stage() {
    let accesses = vec![
        Access::new().write(resource(1)),
        Access::new().write(resource(2)),
        Access::new().read(resource(3)),
    ];
    let plan = StagePlan::compile(&accesses);
    assert_eq!(plan.stage_of(), &vec![0, 0, 0]);
    assert_eq!(plan.order(), &vec![0, 1, 2]);
    assert_eq!(plan.bounds(), &vec![0, 3]);
}

#[test]
fn a_system_goes_after_the_last_that_it_conflicts_with() {
    let a = resource(1);
    let b = resource(2);
    let accesses = vec![
        Access::new().write(a),
        Access::new().read(a),
        Access::new().write(b),
        Access::new().read(a).read(b),
        Access::new().write(a),
    ];
    let plan = StagePlan::compile(&accesses);
    assert_eq!(plan.stage_of(), &vec![0, 1, 0, 1, 2]);
    assert_eq!(plan.order(), &vec![0, 2, 1, 3, 4]);
    assert_eq!(plan.bounds(), &vec![0, 2, 4, 5]);
}

#[test]
fn a_chain_of_writers_gets_one_stage_each() {
    let a = resource(1);
    let accesses = vec![
        Access::new().write(a),
        Access::new().write(a),
        Access::new().write(a),
    ];
    let plan = StagePlan::compile(&accesses);
    assert_eq!(plan.stage_of(), &vec![0, 1, 2]);
    assert_eq!(plan.order(), &vec![0, 1, 2]);
    assert_eq!(plan.bounds(), &vec![0, 1, 2, 3]);
}
