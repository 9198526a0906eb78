use bevy_app::{
    Access, Container, Executor, FailureCause, Frame, MultitaskExecutor, Outcome,
    ParallelExecutorOptions, RayonExecutor, Schedule, SharedState, SimpleExecutor, Slot,
    SystemDescriptor, SystemFailure,
};
use std::sync::atomic::{AtomicBool, AtomicUsize, Ordering};
use std::sync::Arc;

type Logic = Box<dyn Fn(Frame) -> Outcome + Send + Sync>;

fn resource(key: u64) -> Slot {
    Slot { container: Container::Resources, key }
}

fn world(key: u64) -> Slot {
    Slot { container: Container::World, key }
}

fn system(access: Access, logic: impl Fn(Frame) -> Outcome + Send + Sync + 'static) -> SystemDescriptor<Logic> {
    SystemDescriptor { logic: Box::new(logic), access }
}

fn options() -> ParallelExecutorOptions {
    ParallelExecutorOptions::new().with_num_threads(Some(4))
}

/// X = 3; Y = 10; Z = X + Y; X = X * 2; W = Z - X
fn arithmetic() -> Schedule<Logic> {
    let (x, y, z, w) = (resource(1), resource(2), resource(3), world(1));
    let mut schedule: Schedule<Logic> = Schedule::new();
    schedule.add_system(system(Access::new().write(x), |_| Ok(vec![Some(3)])));
    schedule.add_system(system(Access::new().write(y), |_| Ok(vec![Some(10)])));
    schedule.add_system(system(Access::new().read(x).read(y).write(z), |f| {
        Ok(vec![Some(f.reads[0].unwrap() + f.reads[1].unwrap())])
    }));
    schedule.add_system(system(Access::new().write(x), |f| Ok(vec![Some(f.writes[0].unwrap() * 2)])));
    schedule.add_system(system(Access::new().read(z).read(x).write(w), |f| {
        Ok(vec![Some(f.reads[0].unwrap() - f.reads[1].unwrap())])
    }));
    schedule
}

fn tick<E: Executor>(schedule: &Schedule<Logic>, state: &mut SharedState) -> Result<(), SystemFailure> {
    let executor = E::new("App", true, &options(), &schedule.access_list()).unwrap();
    executor.run(schedule, state)
}

fn arithmetic_result<E: Executor>() -> SharedState {
    let schedule = arithmetic();
    let mut state = SharedState::new();
    assert_eq!(tick::<E>(&schedule, &mut state), Ok(()));
    state
}

fn check_arithmetic(state: &SharedState) {
    assert_eq!(state.read(resource(1)), Some(6));
    assert_eq!(state.read(resource(2)), Some(10));
    assert_eq!(state.read(resource(3)), Some(13));
    assert_eq!(state.read(world(1)), Some(7));
}

#[test]
fn sequential_backend_runs_in_declaration_order() {
    check_arithmetic(&arithmetic_result::<SimpleExecutor>());
}

#[test]
fn thread_pool_backend_gives_what_declaration_order_gives() {
    check_arithmetic(&arithmetic_result::<RayonExecutor>());
}

#[test]
fn cooperative_backend_gives_what_declaration_order_gives() {
    check_arithmetic(&arithmetic_result::<MultitaskExecutor>());
}

#[test]
fn the_three_backends_agree_tick_after_tick() {
    let schedule = {
        let (a, b, c) = (resource(1), resource(2), world(7));
        let mut s: Schedule<Logic> = Schedule::new();
        s.add_system(system(Access::new().write(a), |f| Ok(vec![Some(f.writes[0].unwrap_or(1) * 3)])));
        s.add_system(system(Access::new().read(a).write(b), |f| {
            Ok(vec![Some(f.reads[0].unwrap() + f.writes[0].unwrap_or(0))])
        }));
        s.add_system(system(Access::new().write(c), |f| Ok(vec![Some(f.writes[0].unwrap_or(0) - 1)])));
        s.add_system(system(Access::new().read(b).read(c).write(a), |f| {
            Ok(vec![Some(f.writes[0].unwrap() % 1000 + f.reads[0].unwrap() % 7 + f.reads[1].unwrap())])
        }));
        s
    };
    let accesses = schedule.access_list();
    let simple = SimpleExecutor::new("App", true, &options(), &accesses).unwrap();
    let pool = RayonExecutor::new("App", true, &options(), &accesses).unwrap();
    let tasks = MultitaskExecutor::new("App", true, &options(), &accesses).unwrap();
    let mut s1 = SharedState::new();
    let mut s2 = SharedState::new();
    let mut s3 = SharedState::new();
    for _ in 0..25 {
        assert_eq!(simple.run(&schedule, &mut s1), Ok(()));
        assert_eq!(pool.run(&schedule, &mut s2), Ok(()));
        assert_eq!(tasks.run(&schedule, &mut s3), Ok(()));
        for slot in [resource(1), resource(2), world(7)] {
            assert_eq!(s1.read(slot), s2.read(slot));
            assert_eq!(s1.read(slot), s3.read(slot));
        }
    }
    assert_eq!(s1.read(world(7)), Some(-25));
}

fn empty_tick<E: Executor>() {
    let schedule: Schedule<Logic> = Schedule::new();
    let mut state = SharedState::new();
    state.write(resource(1), Some(5));
    assert_eq!(tick::<E>(&schedule, &mut state), Ok(()));
    assert_eq!(state.read(resource(1)), Some(5));
}

#[test]
fn a_tick_of_no_systems_changes_nothing() {
    empty_tick::<SimpleExecutor>();
    empty_tick::<RayonExecutor>();
    empty_tick::<MultitaskExecutor>();
}

/// A writes X, B fails, C writes Y after reading X.
fn failing_in_the_middle() -> Schedule<Logic> {
    let (x, y) = (resource(1), resource(2));
    let mut schedule: Schedule<Logic> = Schedule::new();
    schedule.add_system(system(Access::new().write(x), |_| Ok(vec![Some(41)])));
    schedule.add_system(system(Access::new().read(x), |_| Err(9)));
    schedule.add_system(system(Access::new().read(x).write(y), |f| Ok(vec![f.reads[0]])));
    schedule
}

fn failure_keeps_earlier_effects<E: Executor>() -> SharedState {
    let schedule = failing_in_the_middle();
    let mut state = SharedState::new();
    let r = tick::<E>(&schedule, &mut state);
    assert_eq!(r, Err(SystemFailure { system: 1, cause: FailureCause::Signalled(9) }));
    assert_eq!(state.read(resource(1)), Some(41));
    state
}

#[test]
fn a_failure_leaves_earlier_effects_under_the_sequential_backend() {
    let state = failure_keeps_earlier_effects::<SimpleExecutor>();
    assert_eq!(state.read(resource(2)), None);
}

#[test]
fn a_failure_leaves_earlier_effects_under_the_thread_pool_backend() {
    let state = failure_keeps_earlier_effects::<RayonExecutor>();
    assert_eq!(state.read(resource(2)), Some(41));
}

#[test]
fn a_failure_leaves_earlier_effects_under_the_cooperative_backend() {
    let state = failure_keeps_earlier_effects::<MultitaskExecutor>();
    assert_eq!(state.read(resource(2)), None);
}

#[test]
fn a_failing_stage_is_completed_and_its_first_failure_reported() {
    let mut schedule: Schedule<Logic> = Schedule::new();
    schedule.add_system(system(Access::new().write(resource(1)), |_| Ok(vec![Some(1)])));
    schedule.add_system(system(Access::new().write(resource(2)), |_| Err(20)));
    schedule.add_system(system(Access::new().write(resource(3)), |_| Err(30)));
    schedule.add_system(system(Access::new().write(resource(4)), |_| Ok(vec![Some(4)])));
    schedule.add_system(system(Access::new().read(resource(4)).write(resource(5)), |_| Ok(vec![Some(5)])));
    let mut state = SharedState::new();
    let r = tick::<RayonExecutor>(&schedule, &mut state);
    assert_eq!(r, Err(SystemFailure { system: 1, cause: FailureCause::Signalled(20) }));
    assert_eq!(state.read(resource(1)), Some(1));
    assert_eq!(state.read(resource(2)), None);
    assert_eq!(state.read(resource(3)), None);
    assert_eq!(state.read(resource(4)), Some(4));
    assert_eq!(state.read(resource(5)), None);
    let mut state = SharedState::new();
    let r = tick::<SimpleExecutor>(&schedule, &mut state);
    assert_eq!(r, Err(SystemFailure { system: 1, cause: FailureCause::Signalled(20) }));
    assert_eq!(state.read(resource(1)), Some(1));
    assert_eq!(state.read(resource(4)), None);
}

fn malformed<E: Executor>() {
    let mut schedule: Schedule<Logic> = Schedule::new();
    schedule.add_system(system(Access::new().write(resource(1)), |_| Ok(vec![Some(1)])));
    schedule.add_system(system(Access::new().write(resource(1)), |_| Ok(vec![Some(2), Some(3)])));
    let mut state = SharedState::new();
    let r = tick::<E>(&schedule, &mut state);
    assert_eq!(r, Err(SystemFailure { system: 1, cause: FailureCause::Malformed }));
    assert_eq!(state.read(resource(1)), Some(1));
}

#[test]
fn the_wrong_number_of_values_fails_the_tick() {
    malformed::<SimpleExecutor>();
    malformed::<RayonExecutor>();
    malformed::<MultitaskExecutor>();
}

fn emptying<E: Executor>() {
    let mut schedule: Schedule<Logic> = Schedule::new();
    schedule.add_system(system(Access::new().write(resource(1)).write(world(1)), |f| {
        Ok(vec![None, f.writes[0]])
    }));
    let mut state = SharedState::new();
    state.write(resource(1), Some(12));
    assert_eq!(tick::<E>(&schedule, &mut state), Ok(()));
    assert_eq!(state.read(resource(1)), None);
    assert_eq!(state.read(world(1)), Some(12));
}

#[test]
fn a_system_may_empty_a_slot_that_it_holds() {
    emptying::<SimpleExecutor>();
    emptying::<RayonExecutor>();
    emptying::<MultitaskExecutor>();
}

fn untouched<E: Executor>() {
    let schedule = arithmetic();
    let mut state = SharedState::new();
    state.write(resource(99), Some(-1));
    state.write(world(99), Some(-2));
    assert_eq!(tick::<E>(&schedule, &mut state), Ok(()));
    assert_eq!(state.read(resource(99)), Some(-1));
    assert_eq!(state.read(world(99)), Some(-2));
}

#[test]
fn slots_that_no_system_holds_keep_their_content() {
    untouched::<SimpleExecutor>();
    untouched::<RayonExecutor>();
    untouched::<MultitaskExecutor>();
}

#[test]
fn every_system_runs_once_per_tick() {
    let runs = Arc::new(AtomicUsize::new(0));
    let mut schedule: Schedule<Logic> = Schedule::new();
    for key in 0..17u64 {
        let runs = runs.clone();
        schedule.add_system(system(Access::new().write(resource(key % 5)), move |f| {
            runs.fetch_add(1, Ordering::SeqCst);
            Ok(vec![Some(f.writes[0].unwrap_or(0) + 1)])
        }));
    }
    let mut state = SharedState::new();
    assert_eq!(tick::<RayonExecutor>(&schedule, &mut state), Ok(()));
    assert_eq!(runs.load(Ordering::SeqCst), 17);
    assert_eq!(state.read(resource(0)), Some(4));
    assert_eq!(state.read(resource(1)), Some(4));
    assert_eq!(state.read(resource(2)), Some(3));
    assert_eq!(state.read(resource(4)), Some(3));
}

#[test]
fn a_writer_and_a_reader_of_one_slot_never_run_together() {
    let x = resource(1);
    let writing = Arc::new(AtomicBool::new(false));
    let reading = Arc::new(AtomicBool::new(false));
    let overlaps = Arc::new(AtomicUsize::new(0));
    let mut schedule: Schedule<Logic> = Schedule::new();
    {
        let (writing, reading, overlaps) = (writing.clone(), reading.clone(), overlaps.clone());
        schedule.add_system(system(Access::new().write(x), move |f| {
            writing.store(true, Ordering::SeqCst);
            for _ in 0..200 {
                if reading.load(Ordering::SeqCst) {
                    overlaps.fetch_add(1, Ordering::SeqCst);
                }
                std::hint::spin_loop();
            }
            writing.store(false, Ordering::SeqCst);
            Ok(vec![Some(f.writes[0].unwrap_or(0) + 1)])
        }));
    }
    {
        let (writing, reading, overlaps) = (writing.clone(), reading.clone(), overlaps.clone());
        schedule.add_system(system(Access::new().read(x), move |_| {
            reading.store(true, Ordering::SeqCst);
            for _ in 0..200 {
                if writing.load(Ordering::SeqCst) {
                    overlaps.fetch_add(1, Ordering::SeqCst);
                }
                std::hint::spin_loop();
            }
            reading.store(false, Ordering::SeqCst);
            Ok(vec![])
        }));
    }
    schedule.add_system(system(Access::new().write(resource(2)), |_| Ok(vec![Some(0)])));
    let executor = RayonExecutor::new("App", true, &options(), &schedule.access_list()).unwrap();
    assert_eq!(executor.plan().stage_of(), &vec![0, 1, 0]);
    let mut state = SharedState::new();
    for _ in 0..300 {
        assert_eq!(executor.run(&schedule, &mut state), Ok(()));
    }
    assert_eq!(overlaps.load(Ordering::SeqCst), 0);
    assert_eq!(state.read(x), Some(300));
}

#[test]
fn the_cooperative_backend_works_its_queue_stage_by_stage() {
    let log = Arc::new(std::sync::Mutex::new(Vec::new()));
    let mut schedule: Schedule<Logic> = Schedule::new();
    let accesses = vec![
        Access::new().write(resource(1)),
        Access::new().read(resource(1)),
        Access::new().write(resource(2)),
    ];
    for (i, access) in accesses.into_iter().enumerate() {
        let log = log.clone();
        schedule.add_system(system(access, move |f| {
            log.lock().unwrap().push(i);
            Ok(f.writes)
        }));
    }
    let mut state = SharedState::new();
    let executor =
        MultitaskExecutor::new("App", true, &options(), &schedule.access_list()).unwrap();
    assert_eq!(executor.plan().order(), &vec![0, 2, 1]);
    assert_eq!(executor.run(&schedule, &mut state), Ok(()));
    assert_eq!(*log.lock().unwrap(), vec![0, 2, 1]);
}

#[test]
fn schedule_invokes_one_system_on_the_frame_it_sees() {
    let schedule = failing_in_the_middle();
    assert_eq!(schedule.len(), 3);
    assert_eq!(schedule.access(2).writes, vec![resource(2)]);
    let mut state = SharedState::new();
    assert_eq!(schedule.invoke(0, &state), Ok(vec![Some(41)]));
    assert_eq!(state.read(resource(1)), None);
    assert_eq!(schedule.invoke(1, &state), Err(9));
    assert_eq!(schedule.invoke(2, &state), Ok(vec![None]));
    state.write(resource(1), Some(8));
    assert_eq!(schedule.invoke(2, &state), Ok(vec![Some(8)]));
    assert_eq!(state.read(resource(2)), None);
}

#[test]
fn run_in_order_runs_the_systems_named_and_no_others() {
    let schedule = arithmetic();
    let mut state = SharedState::new();
    assert_eq!(schedule.run_in_order(&vec![1, 0], &mut state), Ok(()));
    assert_eq!(state.read(resource(1)), Some(3));
    assert_eq!(state.read(resource(2)), Some(10));
    assert_eq!(state.read(resource(3)), None);
    assert_eq!(schedule.run_in_order(&vec![3, 2], &mut state), Ok(()));
    assert_eq!(state.read(resource(1)), Some(6));
    assert_eq!(state.read(resource(3)), Some(16));
    assert_eq!(schedule.run_in_order(&vec![], &mut state), Ok(()));
    assert_eq!(state.read(world(1)), None);
}
