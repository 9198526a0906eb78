//! The capability that every backend offers: run one tick of a schedule.

use crate::access::{Access, AccessView};
use crate::error::{ConfigurationError, SystemFailure};
use crate::model::{
    completed, declaration_order, run_order, systems_of, written, Ability, Behavior,
    SystemModel, TickView,
};
use crate::options::ParallelExecutorOptions;
use crate::plan::access_views;
use crate::schedule::Schedule;
use crate::state::{lookup, SharedState, Slot, StateView};
use crate::system::{Frame, Outcome};
use vstd::prelude::*;

verus! {

/// A backend. It is made once for a schedule, from the accesses that the
/// schedule's systems declare, and then runs that schedule tick after tick.
pub trait Executor: Sized {
    /// The executor was made for systems with these accesses.
    spec fn fits(&self, accesses: Seq<AccessView>) -> bool;

    /// The name of the phase that the executor serves, kept for diagnostics.
    spec fn label(&self) -> Seq<char>;

    /// Whether the phase that the executor serves repeats, kept for diagnostics.
    spec fn repeating(&self) -> bool;

    /// How construction with `options` may end: `None` stands for success.
    spec fn admits(options: ParallelExecutorOptions, end: Option<ConfigurationError>) -> bool;

    /// What one tick makes of state `st`.
    spec fn tick(&self, systems: Seq<SystemModel>, st: StateView) -> TickView;

    /// In the tick from `st` in which each system does what `behaviors`
    /// says, every system that runs can hand back, on the frame it sees,
    /// what `behaviors` says it hands back.
    spec fn explained(
        &self,
        accesses: Seq<AccessView>,
        can: Ability,
        behaviors: Seq<Behavior>,
        st: StateView,
    ) -> bool;

    /// Whatever the backend, a tick succeeds exactly when the systems
    /// succeed one after the other in declaration order, and it then
    /// leaves the state that they leave.
    proof fn lemma_tick_as_declared(
        &self,
        accesses: Seq<AccessView>,
        behaviors: Seq<Behavior>,
        st: StateView,
    )
        requires
            self.fits(accesses),
            accesses.len() <= usize::MAX,
        ensures
            completed(self.tick(systems_of(accesses, behaviors), st)) == completed(
                run_order(
                    systems_of(accesses, behaviors),
                    declaration_order(accesses.len()),
                    st,
                ),
            ),
    ;

    /// Whatever the backend, a tick that fails leaves the effects of the
    /// systems that completed, and nothing else: its state is the state
    /// that those systems, the failing one not among them, leave when run
    /// to the end one after the other. Those systems are returned.
    proof fn lemma_failed_tick_keeps_effects(
        &self,
        accesses: Seq<AccessView>,
        behaviors: Seq<Behavior>,
        st: StateView,
    ) -> (ran: Seq<usize>)
        requires
            self.fits(accesses),
            accesses.len() <= usize::MAX,
            self.tick(systems_of(accesses, behaviors), st).result is Err,
        ensures
            forall|p: int| 0 <= p < ran.len() ==> #[trigger] ran[p] < accesses.len(),
            !ran.contains(self.tick(systems_of(accesses, behaviors), st).result->Err_0.system),
            run_order(systems_of(accesses, behaviors), ran, st) == (TickView {
                state: self.tick(systems_of(accesses, behaviors), st).state,
                result: Ok(()),
            }),
    ;

    /// Makes the executor for systems with these accesses.
    fn new(
        name: &str,
        repeating: bool,
        options: &ParallelExecutorOptions,
        accesses: &Vec<Access>,
    ) -> (r: Result<Self, ConfigurationError>)
        ensures
            match r {
                Ok(e) => {
                    &&& Self::admits(*options, None)
                    &&& e.fits(access_views(accesses@))
                    &&& e.label() == name@
                    &&& e.repeating() == repeating
                },
                Err(err) => Self::admits(*options, Some(err)),
            },
    ;

    /// Runs every system of `schedule` once. The state after the call and
    /// the result are those of `tick` for behaviors that the systems
    /// really have; if the systems are deterministic, for the behaviors
    /// that describe them. Whatever the systems do, a slot that none of
    /// them holds exclusively keeps its content.
    fn run<S: Fn(Frame) -> Outcome + Send + Sync>(
        &self,
        schedule: &Schedule<S>,
        state: &mut SharedState,
    ) -> (r: Result<(), SystemFailure>)
        requires
            self.fits(schedule.accesses()),
        ensures
            exists|behaviors: Seq<Behavior>|
                {
                    &&& behaviors.len() == schedule.count()
                    &&& #[trigger] self.explained(
                        schedule.accesses(),
                        schedule.ability(),
                        behaviors,
                        old(state)@,
                    )
                    &&& final(state)@ == self.tick(schedule.model(behaviors), old(state)@).state
                    &&& r == self.tick(schedule.model(behaviors), old(state)@).result
                },
            forall|behaviors: Seq<Behavior>| #[trigger]
                schedule.follows(behaviors) ==> {
                    let t = self.tick(schedule.model(behaviors), old(state)@);
                    final(state)@ == t.state && r == t.result
                },
            r matches Err(failure) ==> failure.system < schedule.count(),
            forall|slot: Slot|
                !written(schedule.accesses(), slot) ==> lookup(final(state)@, slot) == lookup(
                    old(state)@,
                    slot,
                ),
    ;
}

} // verus!
