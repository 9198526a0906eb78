//! The sequential backend: one system after the other, in declaration
//! order, on the caller's thread.

use crate::access::{Access, AccessView};
use crate::error::{ConfigurationError, SystemFailure};
use crate::executor::Executor;
use crate::laws::lemma_failure_keeps_earlier_effects;
use crate::model::{
    declaration_order, explains_order, run_order, systems_of, Ability, Behavior, SystemModel,
    TickView,
};
use crate::options::ParallelExecutorOptions;
use crate::schedule::Schedule;
use crate::state::{SharedState, StateView};
use crate::system::{Frame, Outcome};
use vstd::prelude::*;

verus! {

/// The sequential backend.
pub struct SimpleExecutor {
    name: String,
    repeating: bool,
    order: Vec<usize>,
}

impl SimpleExecutor {
    /// The name of the phase that this executor serves.
    pub fn name(&self) -> (r: &String)
        ensures
            r@ == self.label(),
    {
        &self.name
    }

    /// Whether the phase that this executor serves repeats.
    pub fn is_repeating(&self) -> (r: bool)
        ensures
            r == self.repeating(),
    {
        self.repeating
    }

    /// The systems in the order in which they run.
    pub closed spec fn order_view(&self) -> Seq<usize> {
        self.order@
    }
}

impl Executor for SimpleExecutor {
    /// The executor was made for as many systems as there are accesses.
    open spec fn fits(&self, accesses: Seq<AccessView>) -> bool {
        self.order_view() == declaration_order(accesses.len())
    }

    closed spec fn label(&self) -> Seq<char> {
        self.name@
    }

    closed spec fn repeating(&self) -> bool {
        self.repeating
    }

    /// Construction cannot fail.
    open spec fn admits(options: ParallelExecutorOptions, end: Option<ConfigurationError>) -> bool {
        end is None
    }

    /// The systems run in declaration order.
    open spec fn tick(&self, systems: Seq<SystemModel>, st: StateView) -> TickView {
        run_order(systems, declaration_order(systems.len()), st)
    }

    open spec fn explained(
        &self,
        accesses: Seq<AccessView>,
        can: Ability,
        behaviors: Seq<Behavior>,
        st: StateView,
    ) -> bool {
        explains_order(accesses, can, behaviors, declaration_order(accesses.len()), st)
    }

    proof fn lemma_tick_as_declared(
        &self,
        accesses: Seq<AccessView>,
        behaviors: Seq<Behavior>,
        st: StateView,
    ) {
    }

    proof fn lemma_failed_tick_keeps_effects(
        &self,
        accesses: Seq<AccessView>,
        behaviors: Seq<Behavior>,
        st: StateView,
    ) -> (ran: Seq<usize>) {
        let systems = systems_of(accesses, behaviors);
        let order = declaration_order(accesses.len());
        let p = lemma_failure_keeps_earlier_effects(systems, order, st);
        order.take(p)
    }

    fn new(
        name: &str,
        repeating: bool,
        options: &ParallelExecutorOptions,
        accesses: &Vec<Access>,
    ) -> (r: Result<Self, ConfigurationError>)
    {
        let mut order: Vec<usize> = Vec::new();
        let mut i: usize = 0;
        while i < accesses.len()
            invariant
                i <= accesses.len(),
                order@ == declaration_order(i as nat),
            decreases accesses.len() - i,
        {
            order.push(i);
            assert(order@ =~= declaration_order((i + 1) as nat));
            i += 1;
        }
        proof {
            assert(crate::plan::access_views(accesses@).len() == accesses.len());
        }
        Ok(SimpleExecutor { name: name.to_string(), repeating, order })
    }

    fn run<S: Fn(Frame) -> Outcome + Send + Sync>(
        &self,
        schedule: &Schedule<S>,
        state: &mut SharedState,
    ) -> (r: Result<(), SystemFailure>)
    {
        let r = schedule.run_in_order(&self.order, state);
        proof {
            let order = self.order_view();
            let witness = choose|behaviors: Seq<Behavior>|
                {
                    &&& behaviors.len() == schedule.count()
                    &&& #[trigger] explains_order(
                        schedule.accesses(),
                        schedule.ability(),
                        behaviors,
                        order,
                        old(state)@,
                    )
                    &&& state@ == run_order(schedule.model(behaviors), order, old(state)@).state
                    &&& r == run_order(schedule.model(behaviors), order, old(state)@).result
                };
            assert(self.explained(schedule.accesses(), schedule.ability(), witness, old(state)@));
        }
        r
    }
}

} // verus!
