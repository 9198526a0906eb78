//! The compiled plan of a schedule: its systems sorted into stages, so that
//! systems of one stage may run together.

use crate::access::{conflicts, lemma_conflicts_symmetric, Access, AccessView};
use crate::model::{
    completed, declaration_order, merge_stage, run_order, run_stages, systems_of, Behavior,
};
use crate::reorder::{
    declared_from, independent, lemma_reordering_is_harmless, lemma_run_order_concat,
    lemma_stage_is_sequence, names, reorders, same_frames,
};
use crate::state::StateView;
use vstd::prelude::*;

verus! {

/// The model of a plan.
pub struct PlanView {
    /// The systems, stage after stage.
    pub order: Seq<usize>,
    /// Stage `g` holds the systems at `order[bounds[g]..bounds[g + 1]]`.
    pub bounds: Seq<usize>,
    /// The stage of each system, by its place in the schedule.
    pub stage_of: Seq<usize>,
}

/// The views of a list of accesses.
pub open spec fn access_views(accesses: Seq<Access>) -> Seq<AccessView> {
    accesses.map_values(|a: Access| a@)
}

/// Place `p` of the order lies in stage `g`.
pub open spec fn in_stage(bounds: Seq<usize>, g: int, p: int) -> bool {
    0 <= g < bounds.len() - 1 && bounds[g] <= p < bounds[g + 1]
}

/// The plan holds every system once; a system that conflicts with an earlier
/// one lies in a later stage than that one; the stages follow one another in
/// the order.
pub open spec fn plan_valid(accesses: Seq<AccessView>, plan: PlanView) -> bool {
    let n = accesses.len();
    &&& plan.stage_of.len() == n
    &&& forall|p: int| 0 <= p < plan.order.len() ==> #[trigger] plan.order[p] < n
    &&& forall|p: int, q: int| 0 <= p < q < plan.order.len() ==> plan.order[p] != plan.order[q]
    &&& forall|i: int| 0 <= i < n ==> #[trigger] names(plan.order, i)
    &&& forall|p: int, q: int|
        0 <= p < q < plan.order.len() ==> plan.stage_of[plan.order[p] as int]
            <= plan.stage_of[plan.order[q] as int]
    &&& forall|i: int, j: int|
        0 <= i < j < n && conflicts(accesses[i], accesses[j]) ==> plan.stage_of[i]
            < plan.stage_of[j]
    &&& plan.bounds.len() >= 1
    &&& plan.bounds[0] == 0
    &&& plan.bounds[plan.bounds.len() - 1] == plan.order.len()
    &&& forall|g: int, h: int|
        0 <= g <= h < plan.bounds.len() ==> plan.bounds[g] <= plan.bounds[h]
    &&& forall|g: int, p: int| #[trigger]
        in_stage(plan.bounds, g, p) ==> plan.stage_of[plan.order[p] as int] == g
}

/// The stage that system `i` is sorted into when only the systems before
/// `upto` are looked at: the stage after the last stage of one of them that
/// conflicts with system `i`, or the first stage where none does.
pub open spec fn earliest_stage(accesses: Seq<AccessView>, i: int, upto: int) -> nat
    decreases i, upto,
{
    if upto <= 0 || upto > i {
        0
    } else {
        let rest = earliest_stage(accesses, i, upto - 1);
        let other = earliest_stage(accesses, upto - 1, upto - 1);
        if conflicts(accesses[upto - 1], accesses[i]) && other >= rest {
            other + 1
        } else {
            rest
        }
    }
}

/// The number of systems in stage `g`.
pub open spec fn stage_size(bounds: Seq<usize>, g: int) -> int {
    bounds[g + 1] - bounds[g]
}

/// Some system lies in stage `g`.
pub open spec fn has_stage(stage_of: Seq<usize>, g: int) -> bool {
    exists|k: int| 0 <= k < stage_of.len() && #[trigger] stage_of[k] == g
}

/// The plan is the one that `StagePlan::compile` makes: it is valid, every
/// system lies in the earliest stage that its conflicts with earlier
/// systems allow, the systems of a stage stand in declaration order, and
/// no stage is empty.
pub open spec fn plan_compiled(accesses: Seq<AccessView>, plan: PlanView) -> bool {
    &&& plan_valid(accesses, plan)
    &&& forall|i: int|
        0 <= i < accesses.len() ==> #[trigger] plan.stage_of[i] == earliest_stage(accesses, i, i)
    &&& forall|p: int, q: int|
        0 <= p < q < plan.order.len() && plan.stage_of[plan.order[p] as int]
            == plan.stage_of[plan.order[q] as int] ==> plan.order[p] < plan.order[q]
    &&& forall|g: int| 0 <= g < plan.bounds.len() - 1 ==> #[trigger] stage_size(plan.bounds, g) > 0
}

/// The members of stage `g`.
pub open spec fn stage_members(plan: PlanView, g: int) -> Seq<usize> {
    plan.order.subrange(plan.bounds[g] as int, plan.bounds[g + 1] as int)
}

/// No two systems of one stage conflict.
pub proof fn lemma_stage_members_do_not_conflict(
    accesses: Seq<AccessView>,
    plan: PlanView,
    g: int,
    p: int,
    q: int,
)
    requires
        plan_valid(accesses, plan),
        in_stage(plan.bounds, g, p),
        in_stage(plan.bounds, g, q),
        p != q,
    ensures
        0 <= p < plan.order.len(),
        0 <= q < plan.order.len(),
        !conflicts(accesses[plan.order[p] as int], accesses[plan.order[q] as int]),
{
    let last = plan.bounds.len() - 1;
    assert(plan.bounds[g] <= plan.bounds[g + 1] <= plan.bounds[last]);
    let a = plan.order[p];
    let b = plan.order[q];
    assert(a != b);
    lemma_conflicts_symmetric(accesses[a as int], accesses[b as int]);
}

/// The members of a stage are independent of each other.
pub proof fn lemma_stage_independent(
    accesses: Seq<AccessView>,
    behaviors: Seq<Behavior>,
    plan: PlanView,
    g: int,
)
    requires
        plan_valid(accesses, plan),
        0 <= g < plan.bounds.len() - 1,
    ensures
        independent(systems_of(accesses, behaviors), stage_members(plan, g)),
{
    let systems = systems_of(accesses, behaviors);
    let members = stage_members(plan, g);
    let lo = plan.bounds[g] as int;
    assert(plan.bounds[g] <= plan.bounds[g + 1] <= plan.bounds[plan.bounds.len() - 1]);
    assert forall|p: int, q: int|
        0 <= p < members.len() && 0 <= q < members.len() && p != q implies !conflicts(
        systems[#[trigger] members[p] as int].access,
        systems[#[trigger] members[q] as int].access,
    ) by {
        assert(members[p] == plan.order[lo + p] && members[q] == plan.order[lo + q]);
        assert(in_stage(plan.bounds, g, lo + p));
        assert(in_stage(plan.bounds, g, lo + q));
        lemma_stage_members_do_not_conflict(accesses, plan, g, lo + p, lo + q);
    }
}

/// The order of a valid plan departs from declaration order only where
/// systems do not conflict.
pub proof fn lemma_plan_reorders(
    accesses: Seq<AccessView>,
    behaviors: Seq<Behavior>,
    plan: PlanView,
)
    requires
        plan_valid(accesses, plan),
    ensures
        reorders(systems_of(accesses, behaviors), plan.order, 0),
{
    let systems = systems_of(accesses, behaviors);
    assert forall|p: int, q: int|
        0 <= p < q < plan.order.len() && plan.order[p] > plan.order[q] implies !conflicts(
        systems[plan.order[p] as int].access,
        systems[plan.order[q] as int].access,
    ) by {
        let a = plan.order[p] as int;
        let b = plan.order[q] as int;
        lemma_conflicts_symmetric(accesses[a], accesses[b]);
    }
}

/// The stages `from..` of a valid plan, each run on its snapshot, give what
/// their systems give when run one after the other.
pub proof fn lemma_stages_are_sequence(
    accesses: Seq<AccessView>,
    behaviors: Seq<Behavior>,
    plan: PlanView,
    from: int,
    st: StateView,
)
    requires
        plan_valid(accesses, plan),
        0 <= from < plan.bounds.len(),
    ensures
        completed(run_stages(systems_of(accesses, behaviors), plan.order, plan.bounds, from, st))
            == completed(
            run_order(
                systems_of(accesses, behaviors),
                plan.order.subrange(plan.bounds[from] as int, plan.order.len() as int),
                st,
            ),
        ),
    decreases plan.bounds.len() - from,
{
    let systems = systems_of(accesses, behaviors);
    let len = plan.order.len() as int;
    let last = plan.bounds.len() - 1;
    assert(plan.bounds[from] <= plan.bounds[last]);
    if from + 1 < plan.bounds.len() {
        assert(plan.bounds[from] <= plan.bounds[from + 1] <= plan.bounds[last]);
        let members = stage_members(plan, from);
        let rest = plan.order.subrange(plan.bounds[from + 1] as int, len);
        assert(members + rest =~= plan.order.subrange(plan.bounds[from] as int, len));
        lemma_stage_independent(accesses, behaviors, plan, from);
        assert(same_frames(systems, members, st, st));
        lemma_stage_is_sequence(systems, members, st, st);
        lemma_run_order_concat(systems, members, rest, st);
        let t = merge_stage(systems, members, st, st);
        if t.result is Ok {
            lemma_stages_are_sequence(accesses, behaviors, plan, from + 1, t.state);
        }
    } else {
        assert(plan.order.subrange(plan.bounds[from] as int, len) =~= Seq::<usize>::empty());
    }
}

/// The stages `from..upto` of a valid plan, each run on its snapshot, give
/// what their systems give when run one after the other.
pub proof fn lemma_stages_prefix(
    accesses: Seq<AccessView>,
    behaviors: Seq<Behavior>,
    plan: PlanView,
    from: int,
    upto: int,
    st: StateView,
)
    requires
        plan_valid(accesses, plan),
        0 <= from <= upto < plan.bounds.len(),
    ensures
        completed(
            run_stages(
                systems_of(accesses, behaviors),
                plan.order,
                plan.bounds.take(upto + 1),
                from,
                st,
            ),
        ) == completed(
            run_order(
                systems_of(accesses, behaviors),
                plan.order.subrange(plan.bounds[from] as int, plan.bounds[upto] as int),
                st,
            ),
        ),
    decreases upto - from,
{
    let systems = systems_of(accesses, behaviors);
    let cut = plan.bounds.take(upto + 1);
    let last = plan.bounds.len() - 1;
    assert(plan.bounds[from] <= plan.bounds[upto] <= plan.bounds[last]);
    if from < upto {
        assert(plan.bounds[from] <= plan.bounds[from + 1] <= plan.bounds[upto]);
        assert(cut[from] == plan.bounds[from] && cut[from + 1] == plan.bounds[from + 1]);
        let members = stage_members(plan, from);
        let rest = plan.order.subrange(plan.bounds[from + 1] as int, plan.bounds[upto] as int);
        assert(members + rest =~= plan.order.subrange(
            plan.bounds[from] as int,
            plan.bounds[upto] as int,
        ));
        lemma_stage_independent(accesses, behaviors, plan, from);
        assert(same_frames(systems, members, st, st));
        lemma_stage_is_sequence(systems, members, st, st);
        lemma_run_order_concat(systems, members, rest, st);
        let t = merge_stage(systems, members, st, st);
        if t.result is Ok {
            lemma_stages_prefix(accesses, behaviors, plan, from + 1, upto, t.state);
        }
    } else {
        assert(plan.order.subrange(plan.bounds[from] as int, plan.bounds[upto] as int)
            =~= Seq::<usize>::empty());
    }
}

/// A valid plan, run stage by stage or system by system, gives the tick that
/// declaration order gives: the same success, and on success the same state.
pub proof fn lemma_plan_is_harmless(
    accesses: Seq<AccessView>,
    behaviors: Seq<Behavior>,
    plan: PlanView,
    st: StateView,
)
    requires
        plan_valid(accesses, plan),
        accesses.len() <= usize::MAX,
    ensures
        completed(run_order(systems_of(accesses, behaviors), plan.order, st)) == completed(
            run_order(systems_of(accesses, behaviors), declaration_order(accesses.len()), st),
        ),
        completed(run_stages(systems_of(accesses, behaviors), plan.order, plan.bounds, 0, st))
            == completed(
            run_order(systems_of(accesses, behaviors), declaration_order(accesses.len()), st),
        ),
{
    let systems = systems_of(accesses, behaviors);
    lemma_plan_reorders(accesses, behaviors, plan);
    lemma_reordering_is_harmless(systems, plan.order, 0, st);
    lemma_stages_are_sequence(accesses, behaviors, plan, 0, st);
    assert(plan.order.subrange(0, plan.order.len() as int) =~= plan.order);
    assert(declared_from(accesses.len() as int, 0) =~= declaration_order(accesses.len()));
}

/// A compiled plan.
pub struct StagePlan {
    order: Vec<usize>,
    bounds: Vec<usize>,
    stage_of: Vec<usize>,
}

impl View for StagePlan {
    type V = PlanView;

    closed spec fn view(&self) -> PlanView {
        PlanView { order: self.order@, bounds: self.bounds@, stage_of: self.stage_of@ }
    }
}

impl StagePlan {
    /// The systems, stage after stage.
    pub fn order(&self) -> (r: &Vec<usize>)
        ensures
            r@ == self@.order,
    {
        &self.order
    }

    /// The places at which the stages begin and end.
    pub fn bounds(&self) -> (r: &Vec<usize>)
        ensures
            r@ == self@.bounds,
    {
        &self.bounds
    }

    /// The stage of each system.
    pub fn stage_of(&self) -> (r: &Vec<usize>)
        ensures
            r@ == self@.stage_of,
    {
        &self.stage_of
    }

    /// Sorts the systems into stages: a system goes into the stage after the
    /// last of the earlier systems that it conflicts with, or into the first
    /// stage where there is none. Within a stage the systems keep their
    /// declaration order.
    pub fn compile(accesses: &Vec<Access>) -> (plan: StagePlan)
        ensures
            plan_compiled(access_views(accesses@), plan@),
    {
        let (stage_of, stages) = assign_stages(accesses);
        let (order, bounds) = lay_out(&stage_of, stages);
        let plan = StagePlan { order, bounds, stage_of };
        assert(access_views(accesses@).len() == accesses.len());
        plan
    }
}

/// The stage of each system, and the number of stages.
fn assign_stages(accesses: &Vec<Access>) -> (r: (Vec<usize>, usize))
    ensures
        r.0.len() == accesses.len(),
        forall|k: int| 0 <= k < r.0.len() ==> #[trigger] r.0[k] < r.1,
        forall|k: int|
            0 <= k < r.0.len() ==> #[trigger] r.0[k] == earliest_stage(
                access_views(accesses@),
                k,
                k,
            ),
        forall|h: int| 0 <= h < r.1 ==> #[trigger] has_stage(r.0@, h),
        forall|a: int, b: int|
            0 <= a < b < r.0.len() && conflicts(
                access_views(accesses@)[a],
                access_views(accesses@)[b],
            ) ==> r.0[a] < r.0[b],
{
    let ghost views = access_views(accesses@);
    let n = accesses.len();
    let mut stage_of: Vec<usize> = Vec::new();
    let mut stages: usize = 0;
    let mut i: usize = 0;
    while i < n
        invariant
            i <= n,
            n == accesses.len(),
            views == access_views(accesses@),
            stage_of.len() == i,
            stages <= i,
            forall|k: int| 0 <= k < i ==> #[trigger] stage_of[k] < stages,
            forall|k: int| 0 <= k < i ==> #[trigger] stage_of[k] == earliest_stage(views, k, k),
            forall|h: int| 0 <= h < stages ==> #[trigger] has_stage(stage_of@, h),
            forall|a: int, b: int|
                0 <= a < b < i && conflicts(views[a], views[b]) ==> stage_of[a] < stage_of[b],
        decreases n - i,
    {
        let s = stage_for(accesses, &stage_of, stages, i);
        let ghost staged = stage_of@;
        stage_of.push(s);
        assert forall|h: int| 0 <= h < stages implies #[trigger] has_stage(stage_of@, h) by {
            assert(has_stage(staged, h));
            let k = choose|k: int| 0 <= k < staged.len() && #[trigger] staged[k] == h;
            assert(stage_of@[k] == h);
        }
        if s == stages {
            assert(stage_of@[i as int] == s);
            stages = stages + 1;
        }
        i += 1;
    }
    (stage_of, stages)
}

/// The stage of system `i`, given the stages of the systems before it.
fn stage_for(accesses: &Vec<Access>, stage_of: &Vec<usize>, stages: usize, i: usize) -> (s: usize)
    requires
        i < accesses.len(),
        stage_of.len() == i,
        stages <= i,
        forall|k: int| 0 <= k < i ==> #[trigger] stage_of[k] < stages,
        forall|k: int|
            0 <= k < i ==> #[trigger] stage_of[k] == earliest_stage(
                access_views(accesses@),
                k,
                k,
            ),
    ensures
        s <= stages,
        s == earliest_stage(access_views(accesses@), i as int, i as int),
        forall|a: int|
            0 <= a < i && conflicts(access_views(accesses@)[a], access_views(accesses@)[i as int])
                ==> stage_of[a] < s,
{
    let ghost views = access_views(accesses@);
    let mut s: usize = 0;
    let mut j: usize = 0;
    while j < i
        invariant
            j <= i < accesses.len(),
            stage_of.len() == i,
            stages <= i,
            views == access_views(accesses@),
            forall|k: int| 0 <= k < i ==> #[trigger] stage_of[k] < stages,
            forall|k: int| 0 <= k < i ==> #[trigger] stage_of[k] == earliest_stage(views, k, k),
            s <= stages,
            s == earliest_stage(views, i as int, j as int),
            forall|a: int| 0 <= a < j && conflicts(views[a], views[i as int]) ==> stage_of[a] < s,
        decreases i - j,
    {
        let clash = accesses[j].conflicts_with(&accesses[i]);
        assert(clash == conflicts(views[j as int], views[i as int]));
        assert(stage_of[j as int] == earliest_stage(views, j as int, j as int));
        assert(earliest_stage(views, i as int, j + 1) == (if clash && stage_of[j as int] >= s {
            (stage_of[j as int] + 1) as nat
        } else {
            s as nat
        }));
        if clash && stage_of[j] >= s {
            s = stage_of[j] + 1;
        }
        j += 1;
    }
    s
}

/// The systems stage after stage, each stage in declaration order, and the
/// places at which the stages begin and end.
#[verifier::loop_isolation(false)]
fn lay_out(stage_of: &Vec<usize>, stages: usize) -> (r: (Vec<usize>, Vec<usize>))
    requires
        forall|k: int| 0 <= k < stage_of.len() ==> #[trigger] stage_of[k] < stages,
        forall|h: int| 0 <= h < stages ==> #[trigger] has_stage(stage_of@, h),
    ensures
        forall|p: int| 0 <= p < r.0.len() ==> #[trigger] r.0[p] < stage_of.len(),
        forall|p: int, q: int| 0 <= p < q < r.0.len() ==> r.0[p] != r.0[q],
        forall|i: int| 0 <= i < stage_of.len() ==> #[trigger] names(r.0@, i),
        forall|p: int, q: int|
            0 <= p < q < r.0.len() ==> stage_of[r.0[p] as int] <= stage_of[r.0[q] as int],
        forall|p: int, q: int|
            0 <= p < q < r.0.len() && stage_of[r.0[p] as int] == stage_of[r.0[q] as int]
                ==> r.0[p] < r.0[q],
        r.1.len() == stages + 1,
        r.1[0] == 0,
        r.1[stages as int] == r.0.len(),
        forall|g: int, h: int| 0 <= g <= h < r.1.len() ==> r.1[g] <= r.1[h],
        forall|g: int| 0 <= g < stages ==> #[trigger] stage_size(r.1@, g) > 0,
        forall|g: int, p: int| #[trigger] in_stage(r.1@, g, p) ==> stage_of[r.0[p] as int] == g,
{
    let n = stage_of.len();
    let mut order: Vec<usize> = Vec::new();
    let mut bounds: Vec<usize> = Vec::new();
    bounds.push(0);
    let mut g: usize = 0;
    while g < stages
        invariant
            g <= stages,
            bounds.len() == g + 1,
            bounds[0] == 0,
            bounds[g as int] == order.len(),
            forall|a: int, b: int| 0 <= a <= b < bounds.len() ==> bounds[a] <= bounds[b],
            forall|h: int| 0 <= h < g ==> #[trigger] stage_size(bounds@, h) > 0,
            forall|p: int|
                0 <= p < order.len() ==> #[trigger] order[p] < n && stage_of[order[p] as int] < g,
            forall|p: int, q: int| 0 <= p < q < order.len() ==> order[p] != order[q],
            forall|p: int, q: int|
                0 <= p < q < order.len() ==> stage_of[order[p] as int]
                    <= stage_of[order[q] as int],
            forall|p: int, q: int|
                0 <= p < q < order.len() && stage_of[order[p] as int]
                    == stage_of[order[q] as int] ==> order[p] < order[q],
            forall|h: int, p: int| #[trigger]
                in_stage(bounds@, h, p) ==> stage_of[order[p] as int] == h,
            forall|k: int| 0 <= k < n && stage_of[k] < g ==> #[trigger] names(order@, k),
        decreases stages - g,
    {
        let ghost start = order.len();
        let mut k: usize = 0;
        while k < n
            invariant
                k <= n,
                start <= order.len(),
                forall|p: int|
                    0 <= p < start ==> #[trigger] order[p] < n && stage_of[order[p] as int] < g,
                forall|p: int|
                    start <= p < order.len() ==> #[trigger] order[p] < k
                        && stage_of[order[p] as int] == g,
                forall|p: int, q: int| 0 <= p < q < order.len() ==> order[p] != order[q],
                forall|p: int, q: int|
                    0 <= p < q < order.len() ==> stage_of[order[p] as int]
                        <= stage_of[order[q] as int],
                forall|p: int, q: int|
                    0 <= p < q < order.len() && stage_of[order[p] as int]
                        == stage_of[order[q] as int] ==> order[p] < order[q],
                forall|h: int, p: int| #[trigger]
                    in_stage(bounds@, h, p) ==> p < start && stage_of[order[p] as int] == h,
                forall|i: int|
                    0 <= i < n && (stage_of[i] < g || (stage_of[i] == g && i < k))
                        ==> #[trigger] names(order@, i),
            decreases n - k,
        {
            if stage_of[k] == g {
                let ghost before = order@;
                order.push(k);
                assert forall|i: int|
                    0 <= i < n && (stage_of[i] < g || (stage_of[i] == g && i < k + 1))
                    implies #[trigger] names(order@, i) by {
                    if i == k {
                        assert(order@[before.len() as int] == i);
                    } else {
                        assert(names(before, i));
                        let p = choose|p: int| 0 <= p < before.len() && #[trigger] before[p] == i;
                        assert(order@[p] == i);
                    }
                }
            }
            k += 1;
        }
        proof {
            assert(has_stage(stage_of@, g as int));
            let member = choose|k: int| 0 <= k < stage_of.len() && #[trigger] stage_of[k] == g;
            assert(names(order@, member));
            let at = choose|p: int| 0 <= p < order.len() && #[trigger] order[p] == member;
            assert(at >= start);
        }
        let ghost old_bounds = bounds@;
        bounds.push(order.len());
        assert forall|h: int, p: int| #[trigger]
            in_stage(bounds@, h, p) implies stage_of[order[p] as int] == h by {
            if h < g {
                assert(in_stage(old_bounds, h, p));
            }
        }
        assert forall|h: int| 0 <= h < g + 1 implies #[trigger] stage_size(bounds@, h) > 0 by {
            if h < g {
                assert(stage_size(old_bounds, h) > 0);
            }
        }
        g += 1;
    }
    (order, bounds)
}

} // verus!
