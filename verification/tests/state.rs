use bevy_app::{Access, Container, Frame, Resources, SharedState, Slot, World};
use bevy_app::system::{build_frame, commit, gather, scatter};
use bevy_app::{FailureCause, SystemFailure};

fn world(key: u64) -> Slot {
    Slot { container: Container::World, key }
}

fn resource(key: u64) -> Slot {
    Slot { container: Container::Resources, key }
}

#[test]
fn world_insert_get_remove() {
    let mut w = World::new();
    assert_eq!(w.get(4), None);
    w.insert(4, -9);
    assert_eq!(w.get(4), Some(-9));
    w.insert(4, 11);
    assert_eq!(w.get(4), Some(11));
    assert_eq!(w.get(5), None);
    w.remove(4);
    assert_eq!(w.get(4), None);
}

#[test]
fn resources_insert_get_remove() {
    let mut r = Resources::new();
    r.insert(0, i64::MIN);
    r.insert(u64::MAX, i64::MAX);
    assert_eq!(r.get(0), Some(i64::MIN));
    assert_eq!(r.get(u64::MAX), Some(i64::MAX));
    r.remove(0);
    assert_eq!(r.get(0), None);
    r.remove(0);
    assert_eq!(r.get(0), None);
    assert_eq!(r.get(u64::MAX), Some(i64::MAX));
}

#[test]
fn the_two_containers_are_addressed_apart() {
    let mut state = SharedState::new();
    state.write(world(1), Some(10));
    state.write(resource(1), Some(20));
    assert_eq!(state.read(world(1)), Some(10));
    assert_eq!(state.read(resource(1)), Some(20));
    assert_eq!(state.world.get(1), Some(10));
    assert_eq!(state.resources.get(1), Some(20));
    state.write(world(1), None);
    assert_eq!(state.read(world(1)), None);
    assert_eq!(state.read(resource(1)), Some(20));
}

#[test]
fn a_frame_holds_reads_and_writes_in_declaration_order() {
    let mut state = SharedState::new();
    state.write(resource(1), Some(5));
    state.write(world(2), Some(6));
    let access = Access::new().read(world(2)).read(resource(9)).write(resource(1));
    let frame = build_frame(&access, &state);
    assert_eq!(frame.reads, vec![Some(6), None]);
    assert_eq!(frame.writes, vec![Some(5)]);
}

#[test]
fn gather_reads_each_slot() {
    let mut state = SharedState::new();
    state.write(resource(3), Some(30));
    let got = gather(&state, &vec![resource(3), resource(4), resource(3)]);
    assert_eq!(got, vec![Some(30), None, Some(30)]);
}

#[test]
fn scatter_stores_in_order_and_the_last_store_wins() {
    let mut state = SharedState::new();
    state.write(resource(2), Some(1));
    scatter(
        &mut state,
        &vec![resource(1), resource(2), resource(1)],
        &vec![Some(7), None, Some(8)],
    );
    assert_eq!(state.read(resource(1)), Some(8));
    assert_eq!(state.read(resource(2)), None);
}

#[test]
fn commit_stores_what_a_system_handed_back() {
    let mut state = SharedState::new();
    let access = Access::new().read(resource(1)).write(resource(2)).write(world(3));
    let r = commit(&mut state, &access, 4, &Ok(vec![Some(1), Some(2)]));
    assert_eq!(r, Ok(()));
    assert_eq!(state.read(resource(2)), Some(1));
    assert_eq!(state.read(world(3)), Some(2));
}

#[test]
fn commit_reports_a_signalled_failure_and_stores_nothing() {
    let mut state = SharedState::new();
    state.write(resource(2), Some(1));
    let access = Access::new().write(resource(2));
    let r = commit(&mut state, &access, 4, &Err(77));
    assert_eq!(r, Err(SystemFailure { system: 4, cause: FailureCause::Signalled(77) }));
    assert_eq!(state.read(resource(2)), Some(1));
}

#[test]
fn commit_refuses_the_wrong_number_of_values() {
    let mut state = SharedState::new();
    let access = Access::new().write(resource(2));
    let too_many = commit(&mut state, &access, 0, &Ok(vec![Some(1), Some(2)]));
    assert_eq!(too_many, Err(SystemFailure { system: 0, cause: FailureCause::Malformed }));
    let too_few = commit(&mut state, &access, 0, &Ok(vec![]));
    assert_eq!(too_few, Err(SystemFailure { system: 0, cause: FailureCause::Malformed }));
    assert_eq!(state.read(resource(2)), None);
}

#[test]
fn frame_fields_can_be_built_by_hand() {
    let frame = Frame { reads: vec![None], writes: vec![Some(1)] };
    assert_eq!(frame.reads.len() + frame.writes.len(), 2);
}
