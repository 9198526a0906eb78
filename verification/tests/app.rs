use bevy_app::{
    Access, App, AppError, AppExit, ConfigurationError, Container, Executor, FailureCause,
    Frame, MultitaskExecutor, Outcome, ParallelExecutorOptions, RayonExecutor, RunDriver,
    RunOnce, Runner, Schedule, SimpleExecutor, Slot, SystemDescriptor, SystemFailure,
};
use std::sync::atomic::{AtomicUsize, Ordering};
use std::sync::Arc;

type Logic = Box<dyn Fn(Frame) -> Outcome + Send + Sync>;

const COUNTER: Slot = Slot { container: Container::Resources, key: 1 };
const GREETING: Slot = Slot { container: Container::Resources, key: 2 };

fn system(access: Access, logic: impl Fn(Frame) -> Outcome + Send + Sync + 'static) -> SystemDescriptor<Logic> {
    SystemDescriptor { logic: Box::new(logic), access }
}

fn increment_counter() -> SystemDescriptor<Logic> {
    system(Access::new().write(COUNTER), |f| Ok(vec![Some(f.writes[0].unwrap_or(0) + 1)]))
}

fn assert_counter_even() -> SystemDescriptor<Logic> {
    system(Access::new().read(COUNTER), |f| match f.reads[0] {
        Some(n) if n % 2 == 0 => Ok(vec![]),
        _ => Err(2),
    })
}

fn counter_follows_the_ticks(ticks: Arc<AtomicUsize>) -> SystemDescriptor<Logic> {
    system(Access::new().read(COUNTER), move |f| {
        let tick = ticks.fetch_add(1, Ordering::SeqCst) as i64 + 1;
        if f.reads[0] == Some(tick) {
            Ok(vec![])
        } else {
            Err(1)
        }
    })
}

#[test]
fn ten_sequential_ticks_count_to_ten() {
    let ticks = Arc::new(AtomicUsize::new(0));
    let mut app: App<Logic, RunOnce, SimpleExecutor> = App::build()
        .add_system(increment_counter())
        .add_system(counter_follows_the_ticks(ticks.clone()))
        .finish();
    let mut failures = 0;
    for _ in 0..10 {
        if app.update().is_err() {
            failures += 1;
        }
    }
    assert_eq!(app.state.resources.get(1), Some(10));
    assert_eq!(failures, 0);
    assert_eq!(ticks.load(Ordering::SeqCst), 10);
}

#[test]
fn an_evenness_check_after_the_increment_fails_every_other_tick() {
    let mut app: App<Logic, RunOnce, SimpleExecutor> = App::build()
        .add_system(increment_counter())
        .add_system(assert_counter_even())
        .finish();
    for tick in 1..=10 {
        let r = app.update();
        if tick % 2 == 0 {
            assert_eq!(r, Ok(()));
        } else {
            assert_eq!(
                r,
                Err(AppError::Tick(SystemFailure { system: 1, cause: FailureCause::Signalled(2) }))
            );
        }
        assert_eq!(app.state.resources.get(1), Some(tick));
    }
    assert_eq!(app.state.resources.get(1), Some(10));
}

fn ten_ticks<E: Executor>() {
    let mut app: App<Logic, RunOnce, E> = App::build()
        .set_options(ParallelExecutorOptions::new().with_num_threads(Some(3)))
        .add_resource(1, 100)
        .add_system(increment_counter())
        .add_system(increment_counter())
        .finish();
    for _ in 0..10 {
        assert_eq!(app.update(), Ok(()));
    }
    assert_eq!(app.state.resources.get(1), Some(120));
}

#[test]
fn every_backend_counts_the_same() {
    ten_ticks::<SimpleExecutor>();
    ten_ticks::<RayonExecutor>();
    ten_ticks::<MultitaskExecutor>();
}

#[test]
fn the_default_backend_is_the_thread_pool() {
    let mut app: App<Logic> = App::build().add_system(increment_counter()).finish();
    assert_eq!(app.update(), Ok(()));
    assert!(app.executor.as_ref().unwrap().threads() >= 1);
    assert_eq!(app.state.resources.get(1), Some(1));
}

#[test]
fn a_fresh_application_is_empty() {
    let app: App<Logic, RunOnce, SimpleExecutor> = App::default();
    assert!(matches!(app.runner, Runner::Once));
    assert_eq!(app.schedule.len(), 0);
    assert_eq!(app.startup_schedule.len(), 0);
    assert!(app.executor.is_none());
    assert!(app.startup_executor.is_none());
    assert_eq!(app.options.num_threads(), None);
    assert_eq!(app.options.stack_size(), None);
    assert_eq!(app.state.resources.get(1), None);
    assert_eq!(app.state.world.get(1), None);
    let built: App<Logic, RunOnce, SimpleExecutor> = App::build().finish();
    assert!(matches!(built.runner, Runner::Once));
    assert_eq!(built.schedule.len(), 0);
    assert!(built.executor.is_none());
}

#[test]
fn update_binds_the_main_executor_once() {
    let mut app: App<Logic, RunOnce, SimpleExecutor> =
        App::build().add_system(increment_counter()).finish();
    assert!(app.executor.is_none());
    assert_eq!(app.update(), Ok(()));
    assert_eq!(app.executor.as_ref().unwrap().name(), "App");
    assert!(app.executor.as_ref().unwrap().is_repeating());
    assert!(app.startup_executor.is_none());
    assert_eq!(app.update(), Ok(()));
    assert_eq!(app.executor.as_ref().unwrap().name(), "App");
}

#[test]
fn startup_binds_the_startup_executor() {
    let mut app: App<Logic, RunOnce, MultitaskExecutor> =
        App::build().add_startup_system(increment_counter()).finish();
    assert_eq!(app.startup(), Ok(()));
    assert_eq!(app.startup_executor.as_ref().unwrap().name(), "Startup");
    assert!(!app.startup_executor.as_ref().unwrap().is_repeating());
    assert!(app.executor.is_none());
    assert_eq!(app.state.resources.get(1), Some(1));
}

#[test]
fn initialize_leaves_a_bound_slot_alone() {
    let mut schedule: Schedule<Logic> = Schedule::new();
    schedule.add_system(increment_counter());
    let options = ParallelExecutorOptions::new().with_num_threads(Some(2));
    let mut slot: Option<RayonExecutor> = None;
    assert_eq!(schedule.initialize(&mut slot, &options, "first", true), Ok(()));
    assert_eq!(slot.as_ref().unwrap().name(), "first");
    assert_eq!(slot.as_ref().unwrap().threads(), 2);
    let other = ParallelExecutorOptions::new().with_num_threads(Some(5));
    for _ in 0..3 {
        assert_eq!(schedule.initialize(&mut slot, &other, "second", false), Ok(()));
        assert_eq!(slot.as_ref().unwrap().name(), "first");
        assert!(slot.as_ref().unwrap().is_repeating());
        assert_eq!(slot.as_ref().unwrap().threads(), 2);
    }
    let refused = ParallelExecutorOptions::new().with_num_threads(Some(0));
    assert_eq!(schedule.initialize(&mut slot, &refused, "third", false), Ok(()));
    assert_eq!(slot.as_ref().unwrap().name(), "first");
}

#[test]
fn a_refused_configuration_leaves_the_slot_empty_for_a_later_try() {
    let mut app: App<Logic, RunOnce, RayonExecutor> = App::build()
        .set_options(ParallelExecutorOptions::new().with_num_threads(Some(0)))
        .add_system(increment_counter())
        .finish();
    assert_eq!(app.update(), Err(AppError::Configuration(ConfigurationError::ZeroThreads)));
    assert!(app.executor.is_none());
    assert_eq!(app.state.resources.get(1), None);
    app.options = ParallelExecutorOptions::new().with_num_threads(Some(2)).with_stack_size(Some(0));
    assert_eq!(app.update(), Err(AppError::Configuration(ConfigurationError::ZeroStackSize)));
    assert!(app.executor.is_none());
    app.options = app.options.with_stack_size(None);
    assert_eq!(app.update(), Ok(()));
    assert_eq!(app.executor.as_ref().unwrap().threads(), 2);
    assert_eq!(app.state.resources.get(1), Some(1));
}

fn greeting_is_visible<E: Executor>() {
    let seen = Arc::new(AtomicUsize::new(0));
    let builder = App::<Logic, RunOnce, E>::build()
        .set_options(ParallelExecutorOptions::new().with_num_threads(Some(2)))
        .add_startup_system(system(Access::new().write(GREETING), |_| Ok(vec![Some(1234)])));
    let mut builder = builder;
    for _ in 0..3 {
        let seen = seen.clone();
        builder = builder.add_system(system(Access::new().read(GREETING), move |f| {
            if f.reads[0] == Some(1234) {
                seen.fetch_add(1, Ordering::SeqCst);
                Ok(vec![])
            } else {
                Err(404)
            }
        }));
    }
    assert_eq!(builder.finish().run(), Ok(()));
    assert_eq!(seen.load(Ordering::SeqCst), 3);
}

#[test]
fn what_startup_inserts_is_visible_to_every_main_system() {
    greeting_is_visible::<SimpleExecutor>();
    greeting_is_visible::<RayonExecutor>();
    greeting_is_visible::<MultitaskExecutor>();
}

#[test]
fn without_startup_the_main_phase_misses_the_resource() {
    let app: App<Logic, RunOnce, SimpleExecutor> = App::build()
        .add_system(system(Access::new().read(GREETING), |f| match f.reads[0] {
            Some(_) => Ok(vec![]),
            None => Err(404),
        }))
        .finish();
    assert_eq!(
        app.run(),
        Err(AppError::Tick(SystemFailure { system: 0, cause: FailureCause::Signalled(404) }))
    );
}

#[test]
fn a_failing_startup_ends_the_run_before_the_main_phase() {
    let main_runs = Arc::new(AtomicUsize::new(0));
    let counted = main_runs.clone();
    let app: App<Logic, RunOnce, SimpleExecutor> = App::build()
        .add_startup_system(system(Access::new(), |_| Err(5)))
        .add_system(system(Access::new(), move |_| {
            counted.fetch_add(1, Ordering::SeqCst);
            Ok(vec![])
        }))
        .finish();
    assert_eq!(
        app.run(),
        Err(AppError::Tick(SystemFailure { system: 0, cause: FailureCause::Signalled(5) }))
    );
    assert_eq!(main_runs.load(Ordering::SeqCst), 0);
}

#[test]
fn run_reports_a_refused_configuration() {
    let app: App<Logic, RunOnce, RayonExecutor> = App::build()
        .set_options(ParallelExecutorOptions::new().with_stack_size(Some(0)))
        .add_system(increment_counter())
        .finish();
    assert_eq!(app.run(), Err(AppError::Configuration(ConfigurationError::ZeroStackSize)));
}

/// A driver that looks at the application it is handed, runs three main
/// ticks, and then runs the application once more.
struct Thrice {
    found_default_runner: Arc<AtomicUsize>,
    counter_after: Arc<AtomicUsize>,
}

impl RunDriver<Logic, SimpleExecutor> for Thrice {
    fn drive(self, app: App<Logic, Self, SimpleExecutor>) -> Result<(), AppError> {
        let mut app = app;
        if matches!(app.runner, Runner::Once) {
            self.found_default_runner.fetch_add(1, Ordering::SeqCst);
        }
        for _ in 0..3 {
            app.update()?;
        }
        self.counter_after.store(app.state.resources.get(1).unwrap() as usize, Ordering::SeqCst);
        app.run()
    }
}

#[test]
fn the_default_runner_is_back_once_a_custom_one_was_used() {
    let found = Arc::new(AtomicUsize::new(0));
    let counter_after = Arc::new(AtomicUsize::new(0));
    let main_runs = Arc::new(AtomicUsize::new(0));
    let startup_runs = Arc::new(AtomicUsize::new(0));
    let (m, s) = (main_runs.clone(), startup_runs.clone());
    let app: App<Logic, Thrice, SimpleExecutor> = App::build()
        .add_startup_system(system(Access::new(), move |_| {
            s.fetch_add(1, Ordering::SeqCst);
            Ok(vec![])
        }))
        .add_system(increment_counter())
        .add_system(system(Access::new(), move |_| {
            m.fetch_add(1, Ordering::SeqCst);
            Ok(vec![])
        }))
        .set_runner(Thrice { found_default_runner: found.clone(), counter_after: counter_after.clone() })
        .finish();
    assert!(matches!(app.runner, Runner::Custom(_)));
    assert_eq!(app.run(), Ok(()));
    assert_eq!(found.load(Ordering::SeqCst), 1);
    assert_eq!(counter_after.load(Ordering::SeqCst), 3);
    // three ticks by the driver, and one by the default runner of the second run
    assert_eq!(main_runs.load(Ordering::SeqCst), 4);
    assert_eq!(startup_runs.load(Ordering::SeqCst), 2);
}

#[test]
fn take_runner_leaves_the_default_runner() {
    let mut app: App<Logic, RunOnce, SimpleExecutor> = App::build().set_runner(RunOnce).finish();
    assert!(matches!(app.take_runner(), Runner::Custom(RunOnce)));
    assert!(matches!(app.runner, Runner::Once));
    assert!(matches!(app.take_runner(), Runner::Once));
    assert!(matches!(app.runner, Runner::Once));
}

#[test]
fn run_once_is_one_main_tick() {
    let runs = Arc::new(AtomicUsize::new(0));
    let counted = runs.clone();
    let app: App<Logic, RunOnce, SimpleExecutor> = App::build()
        .add_system(system(Access::new(), move |_| {
            counted.fetch_add(1, Ordering::SeqCst);
            Ok(vec![])
        }))
        .finish();
    assert_eq!(bevy_app::app::run_once(app), Ok(()));
    assert_eq!(runs.load(Ordering::SeqCst), 1);
}

#[test]
fn the_exit_event_carries_nothing() {
    assert_eq!(AppExit, AppExit::default());
    assert_eq!(std::mem::size_of::<AppExit>(), 0);
}

#[test]
fn the_once_driver_makes_one_main_tick() {
    let runs = Arc::new(AtomicUsize::new(0));
    let counted = runs.clone();
    let app: App<Logic, RunOnce, SimpleExecutor> = App::build()
        .add_system(increment_counter())
        .add_system(system(Access::new().read(COUNTER), move |f| {
            counted.fetch_add(1, Ordering::SeqCst);
            if f.reads[0] == Some(1) {
                Ok(vec![])
            } else {
                Err(3)
            }
        }))
        .finish();
    assert_eq!(RunOnce.drive(app), Ok(()));
    assert_eq!(runs.load(Ordering::SeqCst), 1);
    let failing: App<Logic, RunOnce, SimpleExecutor> =
        App::build().add_system(system(Access::new(), |_| Err(8))).finish();
    assert_eq!(
        RunOnce.drive(failing),
        Err(AppError::Tick(SystemFailure { system: 0, cause: FailureCause::Signalled(8) }))
    );
}

#[test]
fn run_constructs_nothing_where_both_executors_are_bound() {
    let mut app: App<Logic, RunOnce, RayonExecutor> = App::build()
        .set_options(ParallelExecutorOptions::new().with_num_threads(Some(2)))
        .add_startup_system(increment_counter())
        .add_system(increment_counter())
        .finish();
    assert_eq!(app.startup(), Ok(()));
    assert_eq!(app.update(), Ok(()));
    app.options = ParallelExecutorOptions::new().with_num_threads(Some(0));
    assert_eq!(app.run(), Ok(()));
}

#[test]
fn run_binds_the_startup_executor_under_its_own_name() {
    struct Look {
        startup_name: Arc<std::sync::Mutex<String>>,
        repeating: Arc<AtomicUsize>,
        main_bound: Arc<AtomicUsize>,
    }
    impl RunDriver<Logic, SimpleExecutor> for Look {
        fn drive(self, app: App<Logic, Self, SimpleExecutor>) -> Result<(), AppError> {
            let executor = app.startup_executor.as_ref().unwrap();
            *self.startup_name.lock().unwrap() = executor.name().clone();
            self.repeating.store(executor.is_repeating() as usize, Ordering::SeqCst);
            self.main_bound.store(app.executor.is_some() as usize, Ordering::SeqCst);
            Ok(())
        }
    }
    let startup_name = Arc::new(std::sync::Mutex::new(String::new()));
    let repeating = Arc::new(AtomicUsize::new(7));
    let main_bound = Arc::new(AtomicUsize::new(7));
    let app: App<Logic, Look, SimpleExecutor> = App::build()
        .add_startup_system(increment_counter())
        .set_runner(Look {
            startup_name: startup_name.clone(),
            repeating: repeating.clone(),
            main_bound: main_bound.clone(),
        })
        .finish();
    assert_eq!(app.run(), Ok(()));
    assert_eq!(*startup_name.lock().unwrap(), "Startup");
    assert_eq!(repeating.load(Ordering::SeqCst), 0);
    assert_eq!(main_bound.load(Ordering::SeqCst), 0);
}

#[test]
fn a_refused_startup_configuration_ends_the_run_before_anything_runs() {
    let runs = Arc::new(AtomicUsize::new(0));
    let (s, m) = (runs.clone(), runs.clone());
    let app: App<Logic, RunOnce, RayonExecutor> = App::build()
        .set_options(ParallelExecutorOptions::new().with_num_threads(Some(0)))
        .add_startup_system(system(Access::new(), move |_| {
            s.fetch_add(1, Ordering::SeqCst);
            Ok(vec![])
        }))
        .add_system(system(Access::new(), move |_| {
            m.fetch_add(1, Ordering::SeqCst);
            Ok(vec![])
        }))
        .finish();
    assert_eq!(app.run(), Err(AppError::Configuration(ConfigurationError::ZeroThreads)));
    assert_eq!(runs.load(Ordering::SeqCst), 0);
}
