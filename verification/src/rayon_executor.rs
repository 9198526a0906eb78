//! The thread-pool backend: the systems of one stage run together on a
//! pool of workers; the stages follow one another with a barrier between.

use crate::access::{conflicts, Access, AccessView};
use crate::error::{ConfigurationError, SystemFailure};
use crate::executor::Executor;
use crate::laws::lemma_failed_stage_keeps_earlier_stages;
use crate::model::{
    called_once, completed, explains_stage, explains_stages, frame_of, merge_stage, predicts,
    replaying, run_order, run_stages, systems_of, written, Ability, Behavior, Record,
    SystemModel, TickView,
};
use crate::options::ParallelExecutorOptions;
use crate::plan::{
    access_views, in_stage, lemma_plan_is_harmless, lemma_stage_independent,
    lemma_stage_members_do_not_conflict, lemma_stages_prefix, plan_compiled, plan_valid,
    stage_members, PlanView, StagePlan,
};
use crate::reorder::{lemma_run_order_concat, lemma_stage_survivors, same_frames, succeeds_on};
use crate::pool::{builder_build, pool_join, pool_size, pool_threads};
use crate::schedule::Schedule;
use crate::state::{lookup, SharedState, Slot, StateView};
use crate::system::{commit, outcome_view, Frame, Outcome};
use vstd::prelude::*;

verus! {

/// Runs the systems at `order[lo..hi]` on the pool, possibly at the same
/// time, each on the same `state`, and returns what each handed back, in
/// the order of `order`. Only systems that do not conflict with each other
/// may be run so.
fn run_members<S: Fn(Frame) -> Outcome + Send + Sync>(
    pool: &rayon::ThreadPool,
    schedule: &Schedule<S>,
    order: &Vec<usize>,
    lo: usize,
    hi: usize,
    state: &SharedState,
) -> (outcomes: Vec<Outcome>)
    requires
        lo < hi <= order.len(),
        forall|p: int| 0 <= p < order.len() ==> #[trigger] order[p] < schedule.count(),
        forall|p: int, q: int|
            lo <= p < hi && lo <= q < hi && p != q ==> !conflicts(
                schedule.accesses()[#[trigger] order[p] as int],
                schedule.accesses()[#[trigger] order[q] as int],
            ),
    ensures
        outcomes.len() == hi - lo,
        forall|p: int|
            lo <= p < hi ==> schedule.produces(
                #[trigger] order[p] as int,
                frame_of(schedule.accesses()[order[p] as int], state@),
                outcome_view(outcomes[p - lo]),
            ),
    decreases hi - lo,
{
    if hi - lo == 1 {
        let mut outcomes: Vec<Outcome> = Vec::new();
        outcomes.push(schedule.invoke(order[lo], state));
        outcomes
    } else {
        let mid: usize = lo + (hi - lo) / 2;
        let left = || -> (part: Vec<Outcome>)
            ensures
                part.len() == mid - lo,
                forall|p: int|
                    lo <= p < mid ==> schedule.produces(
                        #[trigger] order[p] as int,
                        frame_of(schedule.accesses()[order[p] as int], state@),
                        outcome_view(part[p - lo]),
                    ),
            { run_members(pool, schedule, order, lo, mid, state) };
        let right = || -> (part: Vec<Outcome>)
            ensures
                part.len() == hi - mid,
                forall|p: int|
                    mid <= p < hi ==> schedule.produces(
                        #[trigger] order[p] as int,
                        frame_of(schedule.accesses()[order[p] as int], state@),
                        outcome_view(part[p - mid]),
                    ),
            { run_members(pool, schedule, order, mid, hi, state) };
        let (first, second) = pool_join(pool, left, right);
        let mut outcomes = first;
        let mut rest = second;
        outcomes.append(&mut rest);
        outcomes
    }
}

/// The thread-pool backend.
pub struct RayonExecutor {
    name: String,
    repeating: bool,
    pool: rayon::ThreadPool,
    plan: StagePlan,
}

impl RayonExecutor {
    /// The name of the phase that this executor serves.
    pub fn name(&self) -> (r: &String)
        ensures
            r@ == self.label(),
    {
        &self.name
    }

    /// Whether the phase that this executor serves repeats.
    pub fn is_repeating(&self) -> (r: bool)
        ensures
            r == self.repeating(),
    {
        self.repeating
    }

    /// The stages that the systems were sorted into.
    pub closed spec fn plan_view(&self) -> PlanView {
        self.plan@
    }

    /// The stages that the systems were sorted into.
    pub fn plan(&self) -> (r: &StagePlan)
        ensures
            r@ == self.plan_view(),
    {
        &self.plan
    }

    /// The number of workers in the pool.
    pub fn threads(&self) -> (n: usize)
        ensures
            n == self.workers(),
    {
        pool_threads(&self.pool)
    }

    /// The number of workers that the pool was started with.
    pub closed spec fn workers(&self) -> usize {
        pool_size(self.pool)
    }

    /// Calls recorded along the order of the plan name no system twice.
    proof fn lemma_calls_once(&self, accesses: Seq<AccessView>, records: Seq<Record>)
        requires
            self.fits(accesses),
            records.len() <= self.plan_view().order.len(),
            forall|q: int|
                0 <= q < records.len() ==> (#[trigger] records[q]).system
                    == self.plan_view().order[q],
        ensures
            called_once(records),
    {
    }

    /// The executor around a pool that was started, or the error where it
    /// was not.
    fn around(
        name: &str,
        repeating: bool,
        plan: StagePlan,
        built: Result<rayon::ThreadPool, rayon::ThreadPoolBuildError>,
    ) -> (r: Result<Self, ConfigurationError>)
        ensures
            match built {
                Ok(pool) => r matches Ok(e) && e.plan_view() == plan@ && e.label() == name@
                    && e.repeating() == repeating && e.workers() == pool_size(pool),
                Err(_) => r == Err::<Self, ConfigurationError>(ConfigurationError::PoolUnavailable),
            },
    {
        match built {
            Ok(pool) => Ok(RayonExecutor { name: name.to_string(), repeating, pool, plan }),
            Err(_) => Err(ConfigurationError::PoolUnavailable),
        }
    }

    /// Runs stage `g` of the plan: its members run together on the state
    /// as it is at the start; what they hand back is then stored in the
    /// order of the plan. The calls that were made are handed back too.
    fn run_stage<S: Fn(Frame) -> Outcome + Send + Sync>(
        &self,
        schedule: &Schedule<S>,
        g: usize,
        state: &mut SharedState,
    ) -> (out: (Result<(), SystemFailure>, Ghost<Seq<Record>>))
        requires
            self.fits(schedule.accesses()),
            g + 1 < self.plan_view().bounds.len(),
        ensures
            ({
                let members = stage_members(self.plan_view(), g as int);
                let calls = out.1@;
                &&& calls.len() == members.len()
                &&& forall|p: int|
                    0 <= p < calls.len() ==> (#[trigger] calls[p]).system == members[p]
                        && calls[p].frame == frame_of(
                        schedule.accesses()[members[p] as int],
                        old(state)@,
                    )
                &&& schedule.made(calls)
                &&& forall|behaviors: Seq<Behavior>| #[trigger]
                    predicts(behaviors, calls) ==> {
                        let t = merge_stage(
                            schedule.model(behaviors),
                            members,
                            old(state)@,
                            old(state)@,
                        );
                        final(state)@ == t.state && out.0 == t.result
                    }
            }),
            out.0 matches Err(failure) ==> failure.system < schedule.count(),
            forall|slot: Slot|
                !written(schedule.accesses(), slot) ==> lookup(final(state)@, slot) == lookup(
                    old(state)@,
                    slot,
                ),
    {
        let order = self.plan.order();
        let bounds = self.plan.bounds();
        assert(g + 1 < bounds.len());
        let lo = bounds[g];
        let hi = bounds[g + 1];
        let ghost snapshot = state@;
        let ghost members = stage_members(self.plan_view(), g as int);
        proof {
            let last = bounds.len() - 1;
            assert(bounds[g as int] <= bounds[g + 1] <= bounds[last]);
            assert(members.skip(0) =~= members);
        }
        if lo == hi {
            return (Ok(()), Ghost(Seq::empty()));
        }
        proof {
            assert forall|p: int, q: int| lo <= p < hi && lo <= q < hi && p != q implies !conflicts(
                schedule.accesses()[#[trigger] order[p] as int],
                schedule.accesses()[#[trigger] order[q] as int],
            ) by {
                assert(in_stage(self.plan_view().bounds, g as int, p));
                assert(in_stage(self.plan_view().bounds, g as int, q));
                lemma_stage_members_do_not_conflict(
                    schedule.accesses(),
                    self.plan_view(),
                    g as int,
                    p,
                    q,
                );
            }
        }
        let outcomes = run_members(&self.pool, schedule, order, lo, hi, &*state);
        let ghost calls = Seq::new(
            (hi - lo) as nat,
            |p: int|
                Record {
                    system: order[lo + p],
                    frame: frame_of(schedule.accesses()[order[lo + p] as int], snapshot),
                    outcome: outcome_view(outcomes[p]),
                },
        );
        assert(schedule.made(calls));
        let mut failed: Option<SystemFailure> = None;
        let mut p: usize = lo;
        while p < hi
            invariant
                lo <= p <= hi <= order.len(),
                outcomes.len() == hi - lo,
                members == order@.subrange(lo as int, hi as int),
                calls.len() == hi - lo,
                forall|q: int|
                    0 <= q < hi - lo ==> (#[trigger] calls[q]) == (Record {
                        system: order[lo + q],
                        frame: frame_of(schedule.accesses()[order[lo + q] as int], snapshot),
                        outcome: outcome_view(outcomes[q]),
                    }),
                forall|q: int| 0 <= q < order.len() ==> #[trigger] order[q] < schedule.count(),
                failed matches Some(failure) ==> failure.system < schedule.count(),
                forall|slot: Slot|
                    !written(schedule.accesses(), slot) ==> lookup(state@, slot) == lookup(
                        snapshot,
                        slot,
                    ),
                forall|behaviors: Seq<Behavior>| #[trigger]
                    predicts(behaviors, calls) ==> {
                        let total = merge_stage(
                            schedule.model(behaviors),
                            members,
                            snapshot,
                            snapshot,
                        );
                        let rest = merge_stage(
                            schedule.model(behaviors),
                            members.skip(p - lo),
                            snapshot,
                            state@,
                        );
                        total.state == rest.state && total.result == (match failed {
                            Some(failure) => Err(failure),
                            None => rest.result,
                        })
                    },
            decreases hi - p,
        {
            let system = order[p];
            let r = commit(state, schedule.access(system), system, &outcomes[p - lo]);
            proof {
                let rest = members.skip(p - lo);
                assert(rest.drop_first() =~= members.skip(p + 1 - lo));
                assert(rest[0] == order@[p as int]);
                assert forall|behaviors: Seq<Behavior>| #[trigger]
                    predicts(behaviors, calls) implies outcome_view(outcomes[p - lo]) == (
                schedule.model(behaviors)[system as int].behavior)(
                    frame_of(schedule.accesses()[system as int], snapshot),
                ) by {
                    assert(calls[p - lo].system == system);
                }
            }
            if let Err(failure) = r {
                if failed.is_none() {
                    failed = Some(failure);
                }
            }
            p += 1;
        }
        match failed {
            Some(failure) => (Err(failure), Ghost(calls)),
            None => (Ok(()), Ghost(calls)),
        }
    }
}

impl Executor for RayonExecutor {
    open spec fn fits(&self, accesses: Seq<AccessView>) -> bool {
        plan_valid(accesses, self.plan_view())
    }

    closed spec fn label(&self) -> Seq<char> {
        self.name@
    }

    closed spec fn repeating(&self) -> bool {
        self.repeating
    }

    /// A thread count or a stack size of zero is refused. Otherwise the
    /// pool is started, which the machine may refuse.
    open spec fn admits(options: ParallelExecutorOptions, end: Option<ConfigurationError>) -> bool {
        match end {
            Some(ConfigurationError::ZeroThreads) => options.threads() == Some(0usize),
            Some(ConfigurationError::ZeroStackSize) => options.threads() != Some(0usize)
                && options.stack() == Some(0usize),
            _ => options.threads() != Some(0usize) && options.stack() != Some(0usize),
        }
    }

    /// The stages run one after the other; the members of a stage all see
    /// the state as it is when the stage begins.
    open spec fn tick(&self, systems: Seq<SystemModel>, st: StateView) -> TickView {
        run_stages(systems, self.plan_view().order, self.plan_view().bounds, 0, st)
    }

    open spec fn explained(
        &self,
        accesses: Seq<AccessView>,
        can: Ability,
        behaviors: Seq<Behavior>,
        st: StateView,
    ) -> bool {
        explains_stages(
            accesses,
            can,
            behaviors,
            self.plan_view().order,
            self.plan_view().bounds,
            0,
            st,
        )
    }

    proof fn lemma_tick_as_declared(
        &self,
        accesses: Seq<AccessView>,
        behaviors: Seq<Behavior>,
        st: StateView,
    ) {
        lemma_plan_is_harmless(accesses, behaviors, self.plan_view(), st);
    }

    proof fn lemma_failed_tick_keeps_effects(
        &self,
        accesses: Seq<AccessView>,
        behaviors: Seq<Behavior>,
        st: StateView,
    ) -> (ran: Seq<usize>) {
        let systems = systems_of(accesses, behaviors);
        let plan = self.plan_view();
        let total = run_stages(systems, plan.order, plan.bounds, 0, st);
        let g = lemma_failed_stage_keeps_earlier_stages(systems, plan, 0, st);
        let mid = run_stages(systems, plan.order, plan.bounds.take(g + 1), 0, st).state;
        let last = plan.bounds.len() - 1;
        assert(plan.bounds[g] <= plan.bounds[g + 1] <= plan.bounds[last]);
        lemma_stages_prefix(accesses, behaviors, plan, 0, g, st);
        let before = plan.order.subrange(0, plan.bounds[g] as int);
        let members = stage_members(plan, g);
        lemma_stage_independent(accesses, behaviors, plan, g);
        assert(same_frames(systems, members, mid, mid));
        let kept = lemma_stage_survivors(systems, members, mid, mid);
        let ran = before + kept;
        lemma_run_order_concat(systems, before, kept, st);
        let early = run_stages(systems, plan.order, plan.bounds.take(g + 1), 0, st);
        assert(completed(early) == Some(mid));
        assert(plan.bounds[0] == 0);
        assert(completed(run_order(systems, before, st)) == Some(mid));
        assert(total == merge_stage(systems, members, mid, mid));
        assert(completed(run_order(systems, kept, mid)) == Some(total.state));
        let t = run_order(systems, ran, st);
        assert(completed(t) == Some(total.state));
        assert(t.result is Ok);
        assert(t.result->Ok_0 == ());
        assert(t.result == Ok::<(), SystemFailure>(()));
        assert forall|p: int| 0 <= p < ran.len() implies #[trigger] ran[p] < accesses.len() by {
            if p >= before.len() {
                let x = kept[p - before.len()];
                assert(members.contains(x));
                let j = choose|j: int| 0 <= j < members.len() && members[j] == x;
                assert(plan.order[plan.bounds[g] + j] == x);
            } else {
                assert(ran[p] == plan.order[p]);
            }
        }
        let failed = total.result->Err_0.system;
        assert(members.contains(failed));
        let at = choose|j: int| 0 <= j < members.len() && members[j] == failed;
        assert(plan.order[plan.bounds[g] + at] == failed);
        assert forall|p: int| 0 <= p < ran.len() implies ran[p] != failed by {
            if p >= before.len() {
                assert(ran[p] == kept[p - before.len()]);
                assert(succeeds_on(systems[kept[p - before.len()] as int], mid));
            } else {
                assert(ran[p] == plan.order[p]);
                assert(plan.order[p] != plan.order[plan.bounds[g] + at]);
            }
        }
        ran
    }

    fn new(
        name: &str,
        repeating: bool,
        options: &ParallelExecutorOptions,
        accesses: &Vec<Access>,
    ) -> (r: Result<Self, ConfigurationError>)
        ensures
            r matches Ok(e) ==> {
                &&& plan_compiled(access_views(accesses@), e.plan_view())
                &&& e.workers() >= 1
                &&& options.threads() matches Some(n) ==> e.workers() <= n && (n <= 255
                    ==> e.workers() == n)
            },
    {
        if let Some(n) = options.num_threads() {
            if n == 0 {
                return Err(ConfigurationError::ZeroThreads);
            }
        }
        if let Some(size) = options.stack_size() {
            if size == 0 {
                return Err(ConfigurationError::ZeroStackSize);
            }
        }
        let plan = StagePlan::compile(accesses);
        let built = builder_build(options.create_builder());
        RayonExecutor::around(name, repeating, plan, built)
    }

    fn run<S: Fn(Frame) -> Outcome + Send + Sync>(
        &self,
        schedule: &Schedule<S>,
        state: &mut SharedState,
    ) -> (r: Result<(), SystemFailure>)
    {
        let stages = self.plan.bounds().len() - 1;
        let ghost order = self.plan_view().order;
        let ghost bounds = self.plan_view().bounds;
        let ghost accesses = schedule.accesses();
        let ghost can = schedule.ability();
        let ghost start = state@;
        let ghost mut records: Seq<Record> = Seq::empty();
        let mut g: usize = 0;
        while g < stages
            invariant
                g <= stages,
                stages + 1 == bounds.len(),
                order == self.plan_view().order,
                bounds == self.plan_view().bounds,
                accesses == schedule.accesses(),
                can == schedule.ability(),
                start == old(state)@,
                self.fits(schedule.accesses()),
                records.len() == bounds[g as int],
                forall|q: int|
                    0 <= q < records.len() ==> (#[trigger] records[q]).system == order[q],
                schedule.made(records),
                forall|slot: Slot|
                    !written(schedule.accesses(), slot) ==> lookup(state@, slot) == lookup(
                        start,
                        slot,
                    ),
                forall|behaviors: Seq<Behavior>| #[trigger]
                    predicts(behaviors, records) ==> {
                        &&& run_stages(schedule.model(behaviors), order, bounds, 0, start)
                            == run_stages(
                            schedule.model(behaviors),
                            order,
                            bounds,
                            g as int,
                            state@,
                        )
                        &&& explains_stages(
                            accesses,
                            can,
                            behaviors,
                            order,
                            bounds,
                            g as int,
                            state@,
                        ) ==> explains_stages(accesses, can, behaviors, order, bounds, 0, start)
                    },
            decreases stages - g,
        {
            let ghost before = state@;
            let ghost known = records;
            let (r, Ghost(calls)) = self.run_stage(schedule, g, state);
            proof {
                let members = stage_members(self.plan_view(), g as int);
                let last = bounds.len() - 1;
                assert(bounds[g as int] <= bounds[g + 1] <= bounds[last]);
                records = known + calls;
                assert forall|q: int| 0 <= q < records.len() implies (#[trigger] records[q]).system
                    == order[q] by {
                    if q >= known.len() {
                        assert(records[q] == calls[q - known.len()]);
                        assert(members[q - known.len()] == order[q]);
                    } else {
                        assert(records[q] == known[q]);
                    }
                }
                assert forall|q: int| 0 <= q < records.len() implies {
                    &&& (#[trigger] records[q]).system < schedule.count()
                    &&& schedule.produces(
                        records[q].system as int,
                        records[q].frame,
                        records[q].outcome,
                    )
                } by {
                    if q >= known.len() {
                        assert(records[q] == calls[q - known.len()]);
                    } else {
                        assert(records[q] == known[q]);
                    }
                }
                assert forall|behaviors: Seq<Behavior>| #[trigger]
                    predicts(behaviors, records) implies predicts(behaviors, known) && predicts(
                    behaviors,
                    calls,
                ) && explains_stage(accesses, can, behaviors, members, before) by {
                    assert forall|q: int| 0 <= q < known.len() implies behaviors[(
                    #[trigger] known[q]).system as int](known[q].frame) == known[q].outcome by {
                        assert(records[q] == known[q]);
                    }
                    assert forall|q: int| 0 <= q < calls.len() implies behaviors[(
                    #[trigger] calls[q]).system as int](calls[q].frame) == calls[q].outcome by {
                        assert(records[known.len() + q] == calls[q]);
                    }
                    assert forall|p: int| 0 <= p < members.len() implies {
                        let i = #[trigger] members[p] as int;
                        let frame = frame_of(accesses[i], before);
                        can(i, frame, behaviors[i](frame))
                    } by {
                        assert(calls[p].system == members[p]);
                        assert(schedule.produces(
                            calls[p].system as int,
                            calls[p].frame,
                            calls[p].outcome,
                        ));
                    }
                }
            }
            if let Err(failure) = r {
                proof {
                    self.lemma_calls_once(schedule.accesses(), records);
                    schedule.lemma_recorded(records);
                    let witness = replaying(schedule.count(), records);
                    assert(self.explained(accesses, can, witness, start));
                }
                return Err(failure);
            }
            g += 1;
        }
        proof {
            self.lemma_calls_once(schedule.accesses(), records);
            schedule.lemma_recorded(records);
            let witness = replaying(schedule.count(), records);
            assert(self.explained(accesses, can, witness, start));
        }
        Ok(())
    }
}

} // verus!
