//! The cooperative backend: every system is a task on one run queue, and
//! the queue is worked off on the caller's thread, a stage at a time.

use crate::access::{Access, AccessView};
use crate::error::{ConfigurationError, SystemFailure};
use crate::executor::Executor;
use crate::laws::lemma_failure_keeps_earlier_effects;
use crate::model::{
    explains_order, run_order, systems_of, Ability, Behavior, SystemModel, TickView,
};
use crate::options::ParallelExecutorOptions;
use crate::plan::{
    access_views, lemma_plan_is_harmless, plan_compiled, plan_valid, StagePlan,
};
use crate::schedule::Schedule;
use crate::state::{SharedState, StateView};
use crate::system::{Frame, Outcome};
use vstd::prelude::*;

verus! {

/// The cooperative backend.
pub struct MultitaskExecutor {
    name: String,
    repeating: bool,
    plan: StagePlan,
}

impl MultitaskExecutor {
    /// The name of the phase that this executor serves.
    pub fn name(&self) -> (r: &String)
        ensures
            r@ == self.label(),
    {
        &self.name
    }

    /// Whether the phase that this executor serves repeats.
    pub fn is_repeating(&self) -> (r: bool)
        ensures
            r == self.repeating(),
    {
        self.repeating
    }

    /// The plan that the run queue is filled from.
    pub closed spec fn plan_view(&self) -> crate::plan::PlanView {
        self.plan@
    }

    /// The plan that the run queue is filled from.
    pub fn plan(&self) -> (r: &StagePlan)
        ensures
            r@ == self.plan_view(),
    {
        &self.plan
    }
}

impl Executor for MultitaskExecutor {
    open spec fn fits(&self, accesses: Seq<AccessView>) -> bool {
        plan_valid(accesses, self.plan_view())
    }

    closed spec fn label(&self) -> Seq<char> {
        self.name@
    }

    closed spec fn repeating(&self) -> bool {
        self.repeating
    }

    /// Construction cannot fail.
    open spec fn admits(options: ParallelExecutorOptions, end: Option<ConfigurationError>) -> bool {
        end is None
    }

    /// The tasks run one after the other, in the order of the plan.
    open spec fn tick(&self, systems: Seq<SystemModel>, st: StateView) -> TickView {
        run_order(systems, self.plan_view().order, st)
    }

    open spec fn explained(
        &self,
        accesses: Seq<AccessView>,
        can: Ability,
        behaviors: Seq<Behavior>,
        st: StateView,
    ) -> bool {
        explains_order(accesses, can, behaviors, self.plan_view().order, st)
    }

    proof fn lemma_tick_as_declared(
        &self,
        accesses: Seq<AccessView>,
        behaviors: Seq<Behavior>,
        st: StateView,
    ) {
        lemma_plan_is_harmless(accesses, behaviors, self.plan_view(), st);
    }

    proof fn lemma_failed_tick_keeps_effects(
        &self,
        accesses: Seq<AccessView>,
        behaviors: Seq<Behavior>,
        st: StateView,
    ) -> (ran: Seq<usize>) {
        let systems = systems_of(accesses, behaviors);
        let order = self.plan_view().order;
        let p = lemma_failure_keeps_earlier_effects(systems, order, st);
        order.take(p)
    }

    fn new(
        name: &str,
        repeating: bool,
        options: &ParallelExecutorOptions,
        accesses: &Vec<Access>,
    ) -> (r: Result<Self, ConfigurationError>)
        ensures
            r matches Ok(e) ==> plan_compiled(access_views(accesses@), e.plan_view()),
    {
        let plan = StagePlan::compile(accesses);
        Ok(MultitaskExecutor { name: name.to_string(), repeating, plan })
    }

    fn run<S: Fn(Frame) -> Outcome + Send + Sync>(
        &self,
        schedule: &Schedule<S>,
        state: &mut SharedState,
    ) -> (r: Result<(), SystemFailure>)
    {
        let r = schedule.run_in_order(self.plan.order(), state);
        proof {
            let order = self.plan_view().order;
            let witness = choose|behaviors: Seq<Behavior>|
                {
                    &&& behaviors.len() == schedule.count()
                    &&& #[trigger] explains_order(
                        schedule.accesses(),
                        schedule.ability(),
                        behaviors,
                        order,
                        old(state)@,
                    )
                    &&& state@ == run_order(schedule.model(behaviors), order, old(state)@).state
                    &&& r == run_order(schedule.model(behaviors), order, old(state)@).result
                };
            assert(self.explained(schedule.accesses(), schedule.ability(), witness, old(state)@));
        }
        r
    }
}

} // verus!
