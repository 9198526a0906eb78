//! The application: the shared state, the startup and the main schedule
//! with their executors, and the driver that decides how the main phase
//! is run.

use crate::error::{AppError, SystemFailure};
use crate::executor::Executor;
use crate::model::{
    completed, declaration_order, left_by_others, run_order, written, Behavior, SystemModel,
    TickView,
};
use crate::options::ParallelExecutorOptions;
use crate::rayon_executor::RayonExecutor;
use crate::schedule::Schedule;
use crate::state::{lookup, SharedState, Slot, StateView};
use crate::system::{Frame, Outcome, SystemDescriptor};
use vstd::prelude::*;

verus! {

/// The backend that applications use unless they name another.
pub type DefaultExecutor = RayonExecutor;

/// The event that asks the driver of an application to stop. The core only
/// defines it; to deliver and to heed it is the driver's business.
#[derive(Clone, Copy, Debug, PartialEq, Eq, Default)]
pub struct AppExit;

/// How the main phase is run once startup is over.
pub enum Runner<D> {
    /// The main schedule is run once.
    Once,
    /// The driver decides.
    Custom(D),
}

/// A driver: it is handed the application after startup and decides how
/// the main phase is run. By then the application's own runner is
/// `Runner::Once` again, so a driver is used once and never found in
/// the application that it drives.
pub trait RunDriver<S: Fn(Frame) -> Outcome + Send + Sync, E: Executor>: Sized {
    fn drive(self, app: App<S, Self, E>) -> (r: Result<(), AppError>)
        requires
            app.wf(),
            app.runner is Once,
            app.startup_executor is Some,
    ;
}

/// The driver of applications that never replace their runner.
pub struct RunOnce;

impl<S: Fn(Frame) -> Outcome + Send + Sync, E: Executor> RunDriver<S, E> for RunOnce {
    fn drive(self, app: App<S, Self, E>) -> (r: Result<(), AppError>)
        ensures
            r matches Err(AppError::Configuration(err)) ==> app.executor is None && E::admits(
                app.options,
                Some(err),
            ),
            !(r matches Err(AppError::Configuration(_))) && app.executor is None ==> E::admits(
                app.options,
                None,
            ),
            exists|end: StateView| #[trigger]
                phase_may(
                    app.schedule,
                    app.executor,
                    app.options,
                    "App"@,
                    true,
                    app.state@,
                    r,
                    end,
                ),
            forall|behaviors: Seq<Behavior>| #[trigger]
                app.schedule.follows(behaviors) && !(r matches Err(AppError::Configuration(_)))
                    ==> (r is Ok <==> completed(
                    run_order(
                        app.schedule.model(behaviors),
                        declaration_order(app.schedule.count()),
                        app.state@,
                    ),
                ) is Some),
    {
        run_once(app)
    }
}

/// An application.
pub struct App<S: Fn(Frame) -> Outcome, D = RunOnce, E = DefaultExecutor> {
    pub state: SharedState,
    pub runner: Runner<D>,
    pub schedule: Schedule<S>,
    pub executor: Option<E>,
    pub startup_schedule: Schedule<S>,
    pub startup_executor: Option<E>,
    pub options: ParallelExecutorOptions,
}

/// A tick's result as an application reports it.
pub open spec fn reported(result: Result<(), SystemFailure>) -> Result<(), AppError> {
    match result {
        Ok(()) => Ok(()),
        Err(failure) => Err(AppError::Tick(failure)),
    }
}

/// Startup and then one main tick both succeed, the main tick on the state
/// that startup left.
pub open spec fn run_succeeds(
    startup: Seq<SystemModel>,
    main: Seq<SystemModel>,
    st: StateView,
) -> bool {
    match completed(run_order(startup, declaration_order(startup.len()), st)) {
        Some(mid) => completed(run_order(main, declaration_order(main.len()), mid)) is Some,
        None => false,
    }
}

/// An executor bound to `schedule` may in one tick make of state `st` the
/// state `end`, with the result `r`. The executor is the one in `bound` if
/// there is one, else one that was made under `name` and `repeating`.
pub open spec fn may_tick<S: Fn(Frame) -> Outcome + Send + Sync, E: Executor>(
    schedule: Schedule<S>,
    bound: Option<E>,
    name: Seq<char>,
    repeating: bool,
    st: StateView,
    r: Result<(), AppError>,
    end: StateView,
) -> bool {
    exists|e: E, behaviors: Seq<Behavior>|
        {
            &&& e.fits(schedule.accesses())
            &&& bound matches Some(x) ==> e == x
            &&& bound is None ==> e.label() == name && e.repeating() == repeating
            &&& behaviors.len() == schedule.count()
            &&& #[trigger] e.explained(schedule.accesses(), schedule.ability(), behaviors, st)
            &&& end == e.tick(schedule.model(behaviors), st).state
            &&& r == reported(e.tick(schedule.model(behaviors), st).result)
        }
}

/// One tick of a phase may end with the result `r` and the state `end`. A
/// configuration error comes only where no executor is bound yet and the
/// backend refuses or cannot be made; it leaves the state as it is. Any
/// other result is that of a tick, by the executor that is bound or by one
/// that could be made under `name` and `repeating`.
pub open spec fn phase_may<S: Fn(Frame) -> Outcome + Send + Sync, E: Executor>(
    schedule: Schedule<S>,
    bound: Option<E>,
    options: ParallelExecutorOptions,
    name: Seq<char>,
    repeating: bool,
    st: StateView,
    r: Result<(), AppError>,
    end: StateView,
) -> bool {
    match r {
        Err(AppError::Configuration(err)) => {
            &&& bound is None
            &&& E::admits(options, Some(err))
            &&& end == st
        },
        _ => {
            &&& bound is None ==> E::admits(options, None)
            &&& may_tick(schedule, bound, name, repeating, st, r, end)
        },
    }
}

/// One tick of a phase: binds an executor to `schedule` if `slot` is
/// empty, then runs the schedule on `state`.
pub fn tick_phase<S: Fn(Frame) -> Outcome + Send + Sync, E: Executor>(
    schedule: &Schedule<S>,
    slot: &mut Option<E>,
    options: &ParallelExecutorOptions,
    state: &mut SharedState,
    name: &str,
    repeating: bool,
) -> (r: Result<(), AppError>)
    requires
        *old(slot) matches Some(e) ==> e.fits(schedule.accesses()),
    ensures
        *old(slot) is Some ==> *final(slot) == *old(slot),
        match r {
            Err(AppError::Configuration(err)) => {
                &&& *old(slot) is None
                &&& *final(slot) is None
                &&& E::admits(*options, Some(err))
                &&& final(state)@ == old(state)@
            },
            _ => {
                &&& *final(slot) matches Some(e)
                &&& e.fits(schedule.accesses())
                &&& *old(slot) is None ==> E::admits(*options, None) && e.label() == name@
                    && e.repeating() == repeating
                &&& exists|behaviors: Seq<Behavior>|
                    {
                        &&& behaviors.len() == schedule.count()
                        &&& #[trigger] e.explained(
                            schedule.accesses(),
                            schedule.ability(),
                            behaviors,
                            old(state)@,
                        )
                        &&& final(state)@ == e.tick(schedule.model(behaviors), old(state)@).state
                        &&& r == reported(e.tick(schedule.model(behaviors), old(state)@).result)
                    }
                &&& forall|behaviors: Seq<Behavior>| #[trigger]
                    schedule.follows(behaviors) ==> {
                        let t = e.tick(schedule.model(behaviors), old(state)@);
                        final(state)@ == t.state && r == reported(t.result)
                    }
            },
        },
        forall|slot: Slot|
            !written(schedule.accesses(), slot) ==> lookup(final(state)@, slot) == lookup(
                old(state)@,
                slot,
            ),
{
    match schedule.initialize(slot, options, name, repeating) {
        Err(err) => Err(AppError::Configuration(err)),
        Ok(()) => {
            match slot {
                Some(executor) => {
                    let ran = executor.run(schedule, state);
                    proof {
                        let witness = choose|behaviors: Seq<Behavior>|
                            {
                                &&& behaviors.len() == schedule.count()
                                &&& #[trigger] executor.explained(
                                    schedule.accesses(),
                                    schedule.ability(),
                                    behaviors,
                                    old(state)@,
                                )
                                &&& state@ == executor.tick(
                                    schedule.model(behaviors),
                                    old(state)@,
                                ).state
                                &&& ran == executor.tick(
                                    schedule.model(behaviors),
                                    old(state)@,
                                ).result
                            };
                        assert(executor.explained(
                            schedule.accesses(),
                            schedule.ability(),
                            witness,
                            old(state)@,
                        ));
                    }
                    match ran {
                        Ok(()) => Ok(()),
                        Err(failure) => Err(AppError::Tick(failure)),
                    }
                },
                None => Ok(()),
            }
        },
    }
}

/// The default driver: one main tick.
pub fn run_once<S: Fn(Frame) -> Outcome + Send + Sync, D, E: Executor>(app: App<S, D, E>) -> (r:
    Result<(), AppError>)
    requires
        app.wf(),
    ensures
        r matches Err(AppError::Configuration(err)) ==> app.executor is None && E::admits(
            app.options,
            Some(err),
        ),
        !(r matches Err(AppError::Configuration(_))) && app.executor is None ==> E::admits(
            app.options,
            None,
        ),
        exists|end: StateView| #[trigger]
            phase_may(app.schedule, app.executor, app.options, "App"@, true, app.state@, r, end),
        forall|behaviors: Seq<Behavior>| #[trigger]
            app.schedule.follows(behaviors) && !(r matches Err(AppError::Configuration(_))) ==> (r
                is Ok <==> completed(
                run_order(
                    app.schedule.model(behaviors),
                    declaration_order(app.schedule.count()),
                    app.state@,
                ),
            ) is Some),
{
    let ghost before = app;
    let mut app = app;
    let r = app.update();
    proof {
        lemma_ticked(
            before.schedule,
            before.executor,
            app.executor,
            before.options,
            "App"@,
            true,
            before.state@,
            r,
            app.state@,
        );
    }
    r
}

/// What `update` and `startup` promise of a tick is what a tick of the
/// phase may end with.
proof fn lemma_ticked<S: Fn(Frame) -> Outcome + Send + Sync, E: Executor>(
    schedule: Schedule<S>,
    bound: Option<E>,
    after: Option<E>,
    options: ParallelExecutorOptions,
    name: Seq<char>,
    repeating: bool,
    st: StateView,
    r: Result<(), AppError>,
    end: StateView,
)
    requires
        bound is Some ==> after == bound,
        match r {
            Err(AppError::Configuration(err)) => {
                &&& bound is None
                &&& E::admits(options, Some(err))
                &&& end == st
            },
            _ => {
                &&& after matches Some(e)
                &&& e.fits(schedule.accesses())
                &&& bound is None ==> E::admits(options, None) && e.label() == name
                    && e.repeating() == repeating
                &&& exists|behaviors: Seq<Behavior>|
                    {
                        &&& behaviors.len() == schedule.count()
                        &&& #[trigger] e.explained(
                            schedule.accesses(),
                            schedule.ability(),
                            behaviors,
                            st,
                        )
                        &&& end == e.tick(schedule.model(behaviors), st).state
                        &&& r == reported(e.tick(schedule.model(behaviors), st).result)
                    }
            },
        },
    ensures
        phase_may(schedule, bound, options, name, repeating, st, r, end),
{
    if !(r matches Err(AppError::Configuration(_))) {
        let e = after->Some_0;
        let witness = choose|behaviors: Seq<Behavior>|
            {
                &&& behaviors.len() == schedule.count()
                &&& #[trigger] e.explained(schedule.accesses(), schedule.ability(), behaviors, st)
                &&& end == e.tick(schedule.model(behaviors), st).state
                &&& r == reported(e.tick(schedule.model(behaviors), st).result)
            };
        assert(e.explained(schedule.accesses(), schedule.ability(), witness, st));
    }
}

impl<S: Fn(Frame) -> Outcome + Send + Sync, D, E: Executor> Default for App<S, D, E> {
    /// An application with empty state, empty schedules, no executor bound,
    /// and the default runner.
    fn default() -> (r: Self)
        ensures
            r.wf(),
            r.state@ == Map::<Slot, i64>::empty(),
            r.runner is Once,
            r.schedule.accesses().len() == 0,
            r.schedule.logics().len() == 0,
            r.startup_schedule.accesses().len() == 0,
            r.startup_schedule.logics().len() == 0,
            r.executor is None,
            r.startup_executor is None,
            r.options.threads() is None,
            r.options.stack() is None,
    {
        App {
            state: SharedState::new(),
            runner: Runner::Once,
            schedule: Schedule::new(),
            executor: None,
            startup_schedule: Schedule::new(),
            startup_executor: None,
            options: ParallelExecutorOptions::new(),
        }
    }
}

impl<S: Fn(Frame) -> Outcome + Send + Sync, D, E: Executor> App<S, D, E> {
    /// A builder around an empty application.
    pub fn build() -> (builder: AppBuilder<S, D, E>)
        ensures
            builder.app().state@ == Map::<Slot, i64>::empty(),
            builder.app().runner is Once,
            builder.app().schedule.accesses().len() == 0,
            builder.app().schedule.logics().len() == 0,
            builder.app().startup_schedule.accesses().len() == 0,
            builder.app().startup_schedule.logics().len() == 0,
            builder.app().options.threads() is None,
            builder.app().options.stack() is None,
    {
        AppBuilder { app: App::default() }
    }

    /// Each executor that is bound fits the schedule that it is bound to.
    pub open spec fn wf(&self) -> bool {
        &&& self.executor matches Some(e) ==> e.fits(self.schedule.accesses())
        &&& self.startup_executor matches Some(e) ==> e.fits(self.startup_schedule.accesses())
    }

    /// One tick of the main phase. The executor of the main schedule is
    /// bound first, if none is yet.
    pub fn update(&mut self) -> (r: Result<(), AppError>)
        requires
            old(self).wf(),
        ensures
            final(self).wf(),
            final(self).schedule == old(self).schedule,
            final(self).startup_schedule == old(self).startup_schedule,
            final(self).startup_executor == old(self).startup_executor,
            final(self).runner == old(self).runner,
            final(self).options == old(self).options,
            old(self).executor is Some ==> final(self).executor == old(self).executor,
            match r {
                Err(AppError::Configuration(err)) => {
                    &&& old(self).executor is None
                    &&& final(self).executor is None
                    &&& E::admits(old(self).options, Some(err))
                    &&& final(self).state@ == old(self).state@
                },
                _ => {
                    &&& final(self).executor matches Some(e)
                    &&& old(self).executor is None ==> E::admits(old(self).options, None)
                        && e.label() == "App"@ && e.repeating()
                    &&& exists|behaviors: Seq<Behavior>|
                        {
                            &&& behaviors.len() == old(self).schedule.count()
                            &&& #[trigger] e.explained(
                                old(self).schedule.accesses(),
                                old(self).schedule.ability(),
                                behaviors,
                                old(self).state@,
                            )
                            &&& final(self).state@ == e.tick(
                                old(self).schedule.model(behaviors),
                                old(self).state@,
                            ).state
                            &&& r == reported(
                                e.tick(
                                    old(self).schedule.model(behaviors),
                                    old(self).state@,
                                ).result,
                            )
                        }
                    &&& forall|behaviors: Seq<Behavior>| #[trigger]
                        old(self).schedule.follows(behaviors) ==> {
                            let t = e.tick(old(self).schedule.model(behaviors), old(self).state@);
                            final(self).state@ == t.state && r == reported(t.result)
                        }
                },
            },
            forall|slot: Slot|
                !written(old(self).schedule.accesses(), slot) ==> lookup(final(self).state@, slot)
                    == lookup(old(self).state@, slot),
            forall|behaviors: Seq<Behavior>| #[trigger]
                old(self).schedule.follows(behaviors) && !(r matches Err(
                    AppError::Configuration(_),
                )) ==> {
                    let declared = completed(
                        run_order(
                            old(self).schedule.model(behaviors),
                            declaration_order(old(self).schedule.count()),
                            old(self).state@,
                        ),
                    );
                    (r is Ok <==> declared is Some) && (r is Ok ==> declared == Some(
                        final(self).state@,
                    ))
                },
            r matches Err(AppError::Tick(failure)) ==> forall|behaviors: Seq<Behavior>| #[trigger]
                old(self).schedule.follows(behaviors) ==> left_by_others(
                    old(self).schedule.model(behaviors),
                    old(self).state@,
                    final(self).state@,
                    failure.system,
                ),
    {
        let r = tick_phase(
            &self.schedule,
            &mut self.executor,
            &self.options,
            &mut self.state,
            "App",
            true,
        );
        proof {
            if !(r matches Err(AppError::Configuration(_))) {
                let e = self.executor->Some_0;
                self.schedule.lemma_count_bounded();
                assert forall|behaviors: Seq<Behavior>| #[trigger]
                    self.schedule.follows(behaviors) implies completed(
                    e.tick(self.schedule.model(behaviors), old(self).state@),
                ) == completed(
                    run_order(
                        self.schedule.model(behaviors),
                        declaration_order(self.schedule.count()),
                        old(self).state@,
                    ),
                ) by {
                    e.lemma_tick_as_declared(
                        self.schedule.accesses(),
                        behaviors,
                        old(self).state@,
                    );
                }
                if let Err(AppError::Tick(failure)) = r {
                    assert forall|behaviors: Seq<Behavior>| #[trigger]
                        self.schedule.follows(behaviors) implies left_by_others(
                        self.schedule.model(behaviors),
                        old(self).state@,
                        self.state@,
                        failure.system,
                    ) by {
                        let ran = e.lemma_failed_tick_keeps_effects(
                            self.schedule.accesses(),
                            behaviors,
                            old(self).state@,
                        );
                        assert(run_order(self.schedule.model(behaviors), ran, old(self).state@)
                            == (TickView { state: self.state@, result: Ok(()) }));
                    }
                }
            }
        }
        r
    }

    /// The startup phase: one tick of the startup schedule. The executor of
    /// the startup schedule is bound first, if none is yet.
    pub fn startup(&mut self) -> (r: Result<(), AppError>)
        requires
            old(self).wf(),
        ensures
            final(self).wf(),
            final(self).schedule == old(self).schedule,
            final(self).startup_schedule == old(self).startup_schedule,
            final(self).executor == old(self).executor,
            final(self).runner == old(self).runner,
            final(self).options == old(self).options,
            old(self).startup_executor is Some ==> final(self).startup_executor == old(
                self,
            ).startup_executor,
            match r {
                Err(AppError::Configuration(err)) => {
                    &&& old(self).startup_executor is None
                    &&& final(self).startup_executor is None
                    &&& E::admits(old(self).options, Some(err))
                    &&& final(self).state@ == old(self).state@
                },
                _ => {
                    &&& final(self).startup_executor matches Some(e)
                    &&& old(self).startup_executor is None ==> E::admits(old(self).options, None)
                        && e.label() == "Startup"@ && !e.repeating()
                    &&& exists|behaviors: Seq<Behavior>|
                        {
                            &&& behaviors.len() == old(self).startup_schedule.count()
                            &&& #[trigger] e.explained(
                                old(self).startup_schedule.accesses(),
                                old(self).startup_schedule.ability(),
                                behaviors,
                                old(self).state@,
                            )
                            &&& final(self).state@ == e.tick(
                                old(self).startup_schedule.model(behaviors),
                                old(self).state@,
                            ).state
                            &&& r == reported(
                                e.tick(
                                    old(self).startup_schedule.model(behaviors),
                                    old(self).state@,
                                ).result,
                            )
                        }
                    &&& forall|behaviors: Seq<Behavior>| #[trigger]
                        old(self).startup_schedule.follows(behaviors) ==> {
                            let t = e.tick(
                                old(self).startup_schedule.model(behaviors),
                                old(self).state@,
                            );
                            final(self).state@ == t.state && r == reported(t.result)
                        }
                },
            },
            forall|slot: Slot|
                !written(old(self).startup_schedule.accesses(), slot) ==> lookup(
                    final(self).state@,
                    slot,
                ) == lookup(old(self).state@, slot),
            forall|behaviors: Seq<Behavior>| #[trigger]
                old(self).startup_schedule.follows(behaviors) && !(r matches Err(
                    AppError::Configuration(_),
                )) ==> {
                    let declared = completed(
                        run_order(
                            old(self).startup_schedule.model(behaviors),
                            declaration_order(old(self).startup_schedule.count()),
                            old(self).state@,
                        ),
                    );
                    (r is Ok <==> declared is Some) && (r is Ok ==> declared == Some(
                        final(self).state@,
                    ))
                },
            r matches Err(AppError::Tick(failure)) ==> forall|behaviors: Seq<Behavior>| #[trigger]
                old(self).startup_schedule.follows(behaviors) ==> left_by_others(
                    old(self).startup_schedule.model(behaviors),
                    old(self).state@,
                    final(self).state@,
                    failure.system,
                ),
    {
        let r = tick_phase(
            &self.startup_schedule,
            &mut self.startup_executor,
            &self.options,
            &mut self.state,
            "Startup",
            false,
        );
        proof {
            if !(r matches Err(AppError::Configuration(_))) {
                let e = self.startup_executor->Some_0;
                self.startup_schedule.lemma_count_bounded();
                assert forall|behaviors: Seq<Behavior>| #[trigger]
                    self.startup_schedule.follows(behaviors) implies completed(
                    e.tick(self.startup_schedule.model(behaviors), old(self).state@),
                ) == completed(
                    run_order(
                        self.startup_schedule.model(behaviors),
                        declaration_order(self.startup_schedule.count()),
                        old(self).state@,
                    ),
                ) by {
                    e.lemma_tick_as_declared(
                        self.startup_schedule.accesses(),
                        behaviors,
                        old(self).state@,
                    );
                }
                if let Err(AppError::Tick(failure)) = r {
                    assert forall|behaviors: Seq<Behavior>| #[trigger]
                        self.startup_schedule.follows(behaviors) implies left_by_others(
                        self.startup_schedule.model(behaviors),
                        old(self).state@,
                        self.state@,
                        failure.system,
                    ) by {
                        let ran = e.lemma_failed_tick_keeps_effects(
                            self.startup_schedule.accesses(),
                            behaviors,
                            old(self).state@,
                        );
                        assert(run_order(
                            self.startup_schedule.model(behaviors),
                            ran,
                            old(self).state@,
                        ) == (TickView { state: self.state@, result: Ok(()) }));
                    }
                }
            }
        }
        r
    }

    /// Takes the runner out of the application and leaves `Runner::Once`
    /// in its place.
    pub fn take_runner(&mut self) -> (runner: Runner<D>)
        ensures
            runner == old(self).runner,
            final(self).runner is Once,
            final(self).state == old(self).state,
            final(self).schedule == old(self).schedule,
            final(self).executor == old(self).executor,
            final(self).startup_schedule == old(self).startup_schedule,
            final(self).startup_executor == old(self).startup_executor,
            final(self).options == old(self).options,
    {
        let mut runner = Runner::Once;
        std::mem::swap(&mut self.runner, &mut runner);
        runner
    }
}

impl<S: Fn(Frame) -> Outcome + Send + Sync, D: RunDriver<S, E>, E: Executor> App<S, D, E> {
    /// Runs the application: the startup phase first, then the runner,
    /// which is taken out of the application before it is handed the
    /// application. A failure of the startup phase ends the run before the
    /// runner is used. With the default runner the result is that of the
    /// startup tick followed by one main tick on the state that startup
    /// left; with a driver it is what the driver hands back. An executor
    /// that has to be made is made under ("Startup", false) for the startup
    /// phase and under ("App", true) for the main phase; where the backend
    /// does not admit the options, the run ends with its error.
    pub fn run(self) -> (r: Result<(), AppError>)
        requires
            self.wf(),
        ensures
            self.runner is Once ==> (r matches Err(AppError::Configuration(err)) ==> E::admits(
                self.options,
                Some(err),
            )),
            self.runner is Once && (r matches Err(AppError::Configuration(_)))
                ==> self.startup_executor is None || self.executor is None,
            !(r matches Err(AppError::Configuration(_))) && self.startup_executor is None
                ==> E::admits(self.options, None),
            self.startup_executor is None && !E::admits(self.options, None) ==> (r matches Err(
                AppError::Configuration(err),
            ) && E::admits(self.options, Some(err))),
            exists|first: Result<(), AppError>, mid: StateView|
                {
                    &&& #[trigger] phase_may(
                        self.startup_schedule,
                        self.startup_executor,
                        self.options,
                        "Startup"@,
                        false,
                        self.state@,
                        first,
                        mid,
                    )
                    &&& first is Err ==> r == first
                    &&& first is Ok && self.runner is Once ==> exists|end: StateView| #[trigger]
                        phase_may(
                            self.schedule,
                            self.executor,
                            self.options,
                            "App"@,
                            true,
                            mid,
                            r,
                            end,
                        )
                },
            forall|startup: Seq<Behavior>| #[trigger]
                self.startup_schedule.follows(startup) && !(r matches Err(
                    AppError::Configuration(_),
                )) && self.runner is Once && self.executor is None && completed(
                    run_order(
                        self.startup_schedule.model(startup),
                        declaration_order(self.startup_schedule.count()),
                        self.state@,
                    ),
                ) is Some ==> E::admits(self.options, None),
            forall|startup: Seq<Behavior>| #[trigger]
                self.startup_schedule.follows(startup) && !(r matches Err(
                    AppError::Configuration(_),
                )) && completed(
                    run_order(
                        self.startup_schedule.model(startup),
                        declaration_order(self.startup_schedule.count()),
                        self.state@,
                    ),
                ) is None ==> r is Err,
            forall|startup: Seq<Behavior>, main: Seq<Behavior>|
                #![trigger self.startup_schedule.follows(startup), self.schedule.follows(main)]
                self.startup_schedule.follows(startup) && self.schedule.follows(main) && !(r matches
                Err(AppError::Configuration(_))) ==> {
                    self.runner is Once ==> (r is Ok <==> run_succeeds(
                        self.startup_schedule.model(startup),
                        self.schedule.model(main),
                        self.state@,
                    ))
                },
    {
        let mut app = self;
        let first = app.startup();
        proof {
            lemma_ticked(
                self.startup_schedule,
                self.startup_executor,
                app.startup_executor,
                self.options,
                "Startup"@,
                false,
                self.state@,
                first,
                app.state@,
            );
        }
        match first {
            Err(err) => Err(err),
            Ok(()) => {
                let runner = app.take_runner();
                match runner {
                    Runner::Once => run_once(app),
                    Runner::Custom(driver) => driver.drive(app),
                }
            },
        }
    }
}

/// Assembles an application. While it is being assembled no executor is
/// bound, so systems may still be added.
pub struct AppBuilder<S: Fn(Frame) -> Outcome, D, E> {
    app: App<S, D, E>,
}

impl<S: Fn(Frame) -> Outcome, D, E> AppBuilder<S, D, E> {
    #[verifier::type_invariant]
    spec fn unbound(self) -> bool {
        self.app.executor is None && self.app.startup_executor is None
    }

    /// The application as assembled so far.
    pub closed spec fn app(&self) -> App<S, D, E> {
        self.app
    }
}

impl<S: Fn(Frame) -> Outcome + Send + Sync, D, E: Executor> AppBuilder<S, D, E> {
    /// Adds a system to the main schedule.
    pub fn add_system(self, descriptor: SystemDescriptor<S>) -> (r: Self)
        requires
            forall|f: Frame| call_requires(descriptor.logic, (f,)),
        ensures
            r.app().schedule.accesses() == self.app().schedule.accesses().push(descriptor.access@),
            r.app().schedule.logics() == self.app().schedule.logics().push(descriptor.logic),
            r.app().startup_schedule == self.app().startup_schedule,
            r.app().state == self.app().state,
            r.app().runner == self.app().runner,
            r.app().options == self.app().options,
    {
        proof {
            use_type_invariant(&self);
        }
        let AppBuilder { app } = self;
        let mut app = app;
        app.schedule.add_system(descriptor);
        AppBuilder { app }
    }

    /// Adds a system to the startup schedule.
    pub fn add_startup_system(self, descriptor: SystemDescriptor<S>) -> (r: Self)
        requires
            forall|f: Frame| call_requires(descriptor.logic, (f,)),
        ensures
            r.app().startup_schedule.accesses() == self.app().startup_schedule.accesses().push(
                descriptor.access@,
            ),
            r.app().startup_schedule.logics() == self.app().startup_schedule.logics().push(
                descriptor.logic,
            ),
            r.app().schedule == self.app().schedule,
            r.app().state == self.app().state,
            r.app().runner == self.app().runner,
            r.app().options == self.app().options,
    {
        proof {
            use_type_invariant(&self);
        }
        let AppBuilder { app } = self;
        let mut app = app;
        app.startup_schedule.add_system(descriptor);
        AppBuilder { app }
    }

    /// Registers a resource.
    pub fn add_resource(self, key: u64, value: i64) -> (r: Self)
        ensures
            r.app().state.resources@ == self.app().state.resources@.insert(key, value),
            r.app().state.world == self.app().state.world,
            r.app().schedule == self.app().schedule,
            r.app().startup_schedule == self.app().startup_schedule,
            r.app().runner == self.app().runner,
            r.app().options == self.app().options,
    {
        proof {
            use_type_invariant(&self);
        }
        let AppBuilder { app } = self;
        let mut app = app;
        app.state.resources.insert(key, value);
        AppBuilder { app }
    }

    /// Replaces the runner by `driver`.
    pub fn set_runner(self, driver: D) -> (r: Self)
        ensures
            r.app().runner == Runner::Custom(driver),
            r.app().schedule == self.app().schedule,
            r.app().startup_schedule == self.app().startup_schedule,
            r.app().state == self.app().state,
            r.app().options == self.app().options,
    {
        proof {
            use_type_invariant(&self);
        }
        let AppBuilder { app } = self;
        let mut app = app;
        app.runner = Runner::Custom(driver);
        AppBuilder { app }
    }

    /// Replaces the options that executors are made with.
    pub fn set_options(self, options: ParallelExecutorOptions) -> (r: Self)
        ensures
            r.app().options == options,
            r.app().schedule == self.app().schedule,
            r.app().startup_schedule == self.app().startup_schedule,
            r.app().state == self.app().state,
            r.app().runner == self.app().runner,
    {
        proof {
            use_type_invariant(&self);
        }
        let AppBuilder { app } = self;
        let mut app = app;
        app.options = options;
        AppBuilder { app }
    }

    /// The application that was assembled.
    pub fn finish(self) -> (app: App<S, D, E>)
        ensures
            app == self.app(),
            app.wf(),
            app.executor is None,
            app.startup_executor is None,
    {
        proof {
            use_type_invariant(&self);
        }
        let AppBuilder { app } = self;
        app
    }
}

} // verus!
