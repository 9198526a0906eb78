//! What holds of every schedule and every state, whatever the backend.

use crate::access::{conflicts, AccessView};
use crate::executor::Executor;
use crate::model::{
    attempt, completed, declaration_order, frame_of, merge_stage, run_order, run_stages,
    systems_of, Behavior, SystemModel, TickView,
};
use crate::multitask_executor::MultitaskExecutor;
use crate::plan::{in_stage, lemma_stage_members_do_not_conflict, stage_members, PlanView};
use crate::rayon_executor::RayonExecutor;
use crate::reorder::lemma_store_all_untouched;
use crate::simple_executor::SimpleExecutor;
use crate::state::{lookup, Slot, StateView};
use vstd::prelude::*;

verus! {

/// The three backends agree: on the same deterministic systems and the same
/// state, a tick succeeds under one exactly when it succeeds under the
/// others, and then all three leave the same state.
pub proof fn lemma_backends_agree(
    simple: SimpleExecutor,
    pool: RayonExecutor,
    tasks: MultitaskExecutor,
    accesses: Seq<AccessView>,
    behaviors: Seq<Behavior>,
    st: StateView,
)
    requires
        simple.fits(accesses),
        pool.fits(accesses),
        tasks.fits(accesses),
        accesses.len() <= usize::MAX,
    ensures
        completed(pool.tick(systems_of(accesses, behaviors), st)) == completed(
            simple.tick(systems_of(accesses, behaviors), st),
        ),
        completed(tasks.tick(systems_of(accesses, behaviors), st)) == completed(
            simple.tick(systems_of(accesses, behaviors), st),
        ),
{
    simple.lemma_tick_as_declared(accesses, behaviors, st);
    pool.lemma_tick_as_declared(accesses, behaviors, st);
    tasks.lemma_tick_as_declared(accesses, behaviors, st);
}

/// Two systems that the thread-pool backend runs at the same time, that is
/// two systems of one stage, do not conflict.
pub proof fn lemma_concurrent_systems_do_not_conflict(
    pool: RayonExecutor,
    accesses: Seq<AccessView>,
    g: int,
    p: int,
    q: int,
)
    requires
        pool.fits(accesses),
        in_stage(pool.plan_view().bounds, g, p),
        in_stage(pool.plan_view().bounds, g, q),
        p != q,
    ensures
        !conflicts(
            accesses[pool.plan_view().order[p] as int],
            accesses[pool.plan_view().order[q] as int],
        ),
{
    lemma_stage_members_do_not_conflict(accesses, pool.plan_view(), g, p, q);
}

/// A slot that none of the systems run holds exclusively keeps its content,
/// whether the tick succeeds or fails.
pub proof fn lemma_untouched_slots_persist(
    systems: Seq<SystemModel>,
    order: Seq<usize>,
    st: StateView,
    slot: Slot,
)
    requires
        forall|p: int|
            0 <= p < order.len() ==> !systems[#[trigger] order[p] as int].access.writes.contains(
                slot,
            ),
    ensures
        lookup(run_order(systems, order, st).state, slot) == lookup(st, slot),
    decreases order.len(),
{
    if order.len() > 0 {
        let sys = systems[order[0] as int];
        match attempt(sys, st) {
            Ok(next) => {
                let values = (sys.behavior)(frame_of(sys.access, st))->Ok_0;
                lemma_store_all_untouched(st, sys.access.writes, values, slot);
                assert forall|p: int| 0 <= p < order.drop_first().len() implies !systems[
                #[trigger] order.drop_first()[p] as int].access.writes.contains(slot) by {
                    assert(order.drop_first()[p] == order[p + 1]);
                }
                lemma_untouched_slots_persist(systems, order.drop_first(), next, slot);
            },
            Err(_) => {},
        }
    }
}

/// What startup left in a slot is what a system of the main phase reads
/// there, unless an earlier system of the main phase holds the slot
/// exclusively: in declaration order system `k` runs on the state that the
/// systems before it made of `mid`, the state after startup.
pub proof fn lemma_startup_effects_visible(
    systems: Seq<SystemModel>,
    k: int,
    j: int,
    mid: StateView,
)
    requires
        0 <= k < systems.len() <= usize::MAX,
        0 <= j < systems[k].access.reads.len(),
        forall|i: int|
            0 <= i < k ==> !(#[trigger] systems[i]).access.writes.contains(
                systems[k].access.reads[j],
            ),
    ensures
        frame_of(
            systems[k].access,
            run_order(systems, declaration_order(k as nat), mid).state,
        ).reads[j] == lookup(mid, systems[k].access.reads[j]),
{
    let order = declaration_order(k as nat);
    let slot = systems[k].access.reads[j];
    assert forall|p: int| 0 <= p < order.len() implies !systems[
    #[trigger] order[p] as int].access.writes.contains(slot) by {
        assert(order[p] == p);
        assert(!systems[p].access.writes.contains(slot));
    }
    lemma_untouched_slots_persist(systems, order, mid, slot);
}

/// A tick that fails leaves the effects of the systems that ran before the
/// failing one intact: the state is the one that those systems, run to the
/// end, leave. The place of the failing system in `order` is returned.
pub proof fn lemma_failure_keeps_earlier_effects(
    systems: Seq<SystemModel>,
    order: Seq<usize>,
    st: StateView,
) -> (p: int)
    requires
        run_order(systems, order, st).result is Err,
    ensures
        0 <= p < order.len(),
        run_order(systems, order, st).result->Err_0.system == order[p],
        run_order(systems, order.take(p), st) == (TickView {
            state: run_order(systems, order, st).state,
            result: Ok(()),
        }),
    decreases order.len(),
{
    match attempt(systems[order[0] as int], st) {
        Ok(next) => {
            let q = lemma_failure_keeps_earlier_effects(systems, order.drop_first(), next);
            let taken = order.take(q + 1);
            assert(taken[0] == order[0]);
            assert(taken.drop_first() =~= order.drop_first().take(q));
            q + 1
        },
        Err(_) => {
            assert(order.take(0).len() == 0);
            0
        },
    }
}

/// A tick of the thread-pool backend that fails leaves the effects of the
/// stages before the failing one intact, and completes the failing stage:
/// the state is what that stage makes of the state that the stages before
/// it leave. The failing stage is returned.
pub proof fn lemma_failed_stage_keeps_earlier_stages(
    systems: Seq<SystemModel>,
    plan: PlanView,
    from: int,
    st: StateView,
) -> (g: int)
    requires
        0 <= from,
        run_stages(systems, plan.order, plan.bounds, from, st).result is Err,
    ensures
        from <= g < plan.bounds.len() - 1,
        run_stages(systems, plan.order, plan.bounds.take(g + 1), from, st).result is Ok,
        run_stages(systems, plan.order, plan.bounds, from, st) == ({
            let mid = run_stages(systems, plan.order, plan.bounds.take(g + 1), from, st).state;
            merge_stage(systems, stage_members(plan, g), mid, mid)
        }),
    decreases plan.bounds.len() - from,
{
    let members = stage_members(plan, from);
    let t = merge_stage(systems, members, st, st);
    if t.result is Ok {
        let g = lemma_failed_stage_keeps_earlier_stages(systems, plan, from + 1, t.state);
        let cut = plan.bounds.take(g + 1);
        assert(cut[from] == plan.bounds[from] && cut[from + 1] == plan.bounds[from + 1]);
        g
    } else {
        from
    }
}

} // verus!
