//! What a tick means: the effect of a schedule on the shared state, as
//! mathematics. The executors are specified against these functions.

use crate::access::AccessView;
use crate::error::{FailureCause, SystemFailure};
use crate::state::{lookup, put, Slot, StateView};
use vstd::prelude::*;

verus! {

/// What a system is handed when it runs: the content of the slots it reads
/// and of the slots it holds exclusively, in declaration order.
pub struct FrameView {
    pub reads: Seq<Option<i64>>,
    pub writes: Seq<Option<i64>>,
}

/// What a system hands back: the new content of each slot it holds
/// exclusively, or the code of its failure.
pub type OutcomeView = Result<Seq<Option<i64>>, u32>;

/// A deterministic description of a system's logic.
pub type Behavior = spec_fn(FrameView) -> OutcomeView;

/// A system as the model sees it.
pub struct SystemModel {
    pub access: AccessView,
    pub behavior: Behavior,
}

/// The state after a tick, and whether the tick succeeded.
pub struct TickView {
    pub state: StateView,
    pub result: Result<(), SystemFailure>,
}

/// The systems made of `accesses` and `behaviors`, pairwise.
pub open spec fn systems_of(accesses: Seq<AccessView>, behaviors: Seq<Behavior>) -> Seq<
    SystemModel,
> {
    Seq::new(
        accesses.len(),
        |i: int| SystemModel { access: accesses[i], behavior: behaviors[i] },
    )
}

/// The content of each of `slots`.
pub open spec fn values_at(st: StateView, slots: Seq<Slot>) -> Seq<Option<i64>> {
    Seq::new(slots.len(), |i: int| lookup(st, slots[i]))
}

/// The frame that a system with access `a` sees in state `st`.
pub open spec fn frame_of(a: AccessView, st: StateView) -> FrameView {
    FrameView { reads: values_at(st, a.reads), writes: values_at(st, a.writes) }
}

/// The state after `values` were stored into `slots`, one after the other.
pub open spec fn store_all(st: StateView, slots: Seq<Slot>, values: Seq<Option<i64>>) -> StateView
    decreases slots.len(),
{
    if slots.len() == 0 {
        st
    } else {
        store_all(put(st, slots[0], values[0]), slots.drop_first(), values.drop_first())
    }
}

/// What becomes of state `st` when a system with access `a` hands back `o`:
/// its values are stored where it holds exclusive access, or the state is
/// left as it is and the cause of the failure is named.
pub open spec fn settle(a: AccessView, o: OutcomeView, st: StateView) -> Result<
    StateView,
    FailureCause,
> {
    match o {
        Err(code) => Err(FailureCause::Signalled(code)),
        Ok(values) => if values.len() == a.writes.len() {
            Ok(store_all(st, a.writes, values))
        } else {
            Err(FailureCause::Malformed)
        },
    }
}

/// One run of `sys` on state `st`.
pub open spec fn attempt(sys: SystemModel, st: StateView) -> Result<StateView, FailureCause> {
    settle(sys.access, (sys.behavior)(frame_of(sys.access, st)), st)
}

/// The systems named by `order` run one after the other, each on the state
/// that the one before left. The first failure ends the tick: the state is
/// then what the systems before the failing one made of it.
pub open spec fn run_order(systems: Seq<SystemModel>, order: Seq<usize>, st: StateView) -> TickView
    decreases order.len(),
{
    if order.len() == 0 {
        TickView { state: st, result: Ok(()) }
    } else {
        match attempt(systems[order[0] as int], st) {
            Ok(next) => run_order(systems, order.drop_first(), next),
            Err(cause) => TickView {
                state: st,
                result: Err(SystemFailure { system: order[0], cause }),
            },
        }
    }
}

/// Declaration order: `0, 1, .., n - 1`.
pub open spec fn declaration_order(n: nat) -> Seq<usize> {
    Seq::new(n, |i: int| i as usize)
}

/// The members of one stage all run on the same snapshot, the state at the
/// start of the stage. What the successful ones hand back is stored into
/// `st` in the order of `members`; the stage fails with the first member
/// that failed.
pub open spec fn merge_stage(
    systems: Seq<SystemModel>,
    members: Seq<usize>,
    snapshot: StateView,
    st: StateView,
) -> TickView
    decreases members.len(),
{
    if members.len() == 0 {
        TickView { state: st, result: Ok(()) }
    } else {
        let sys = systems[members[0] as int];
        match settle(sys.access, (sys.behavior)(frame_of(sys.access, snapshot)), st) {
            Ok(next) => merge_stage(systems, members.drop_first(), snapshot, next),
            Err(cause) => TickView {
                state: merge_stage(systems, members.drop_first(), snapshot, st).state,
                result: Err(SystemFailure { system: members[0], cause }),
            },
        }
    }
}

/// The stages `from..` of a plan run one after the other, with a barrier
/// between them; stage `g` holds the systems at `order[bounds[g]..bounds[g + 1]]`.
/// A stage that fails is still completed, and ends the tick.
pub open spec fn run_stages(
    systems: Seq<SystemModel>,
    order: Seq<usize>,
    bounds: Seq<usize>,
    from: int,
    st: StateView,
) -> TickView
    decreases bounds.len() - from,
{
    if from < 0 || from + 1 >= bounds.len() {
        TickView { state: st, result: Ok(()) }
    } else {
        let members = order.subrange(bounds[from] as int, bounds[from + 1] as int);
        let t = merge_stage(systems, members, st, st);
        if t.result is Ok {
            run_stages(systems, order, bounds, from + 1, t.state)
        } else {
            t
        }
    }
}

/// Some system holds exclusive access to `slot`.
pub open spec fn written(accesses: Seq<AccessView>, slot: Slot) -> bool {
    exists|i: int| 0 <= i < accesses.len() && #[trigger] accesses[i].writes.contains(slot)
}

/// The final state of a tick that succeeded.
pub open spec fn completed(t: TickView) -> Option<StateView> {
    if t.result is Ok {
        Some(t.state)
    } else {
        None
    }
}

/// State `end` is what some of the systems, system `failed` not among them,
/// make of state `st` when they are run to the end one after the other.
pub open spec fn left_by_others(
    systems: Seq<SystemModel>,
    st: StateView,
    end: StateView,
    failed: usize,
) -> bool {
    exists|ran: Seq<usize>|
        !ran.contains(failed) && #[trigger] run_order(systems, ran, st) == (TickView {
            state: end,
            result: Ok(()),
        })
}

/// What systems can do: `can(i, frame, outcome)` holds where system `i`,
/// handed `frame`, may hand back `outcome`.
pub type Ability = spec_fn(int, FrameView, OutcomeView) -> bool;

/// In the run of `order` from `st` in which each system does what
/// `behaviors` says, every system that runs can hand back, on the frame it
/// sees, what `behaviors` says it hands back.
pub open spec fn explains_order(
    accesses: Seq<AccessView>,
    can: Ability,
    behaviors: Seq<Behavior>,
    order: Seq<usize>,
    st: StateView,
) -> bool
    decreases order.len(),
{
    if order.len() == 0 {
        true
    } else {
        let i = order[0] as int;
        let frame = frame_of(accesses[i], st);
        &&& can(i, frame, behaviors[i](frame))
        &&& match settle(accesses[i], behaviors[i](frame), st) {
            Ok(next) => explains_order(accesses, can, behaviors, order.drop_first(), next),
            Err(_) => true,
        }
    }
}

/// Every member of a stage can hand back, on the frame it sees in
/// `snapshot`, what `behaviors` says it hands back.
pub open spec fn explains_stage(
    accesses: Seq<AccessView>,
    can: Ability,
    behaviors: Seq<Behavior>,
    members: Seq<usize>,
    snapshot: StateView,
) -> bool {
    forall|p: int|
        0 <= p < members.len() ==> {
            let i = #[trigger] members[p] as int;
            let frame = frame_of(accesses[i], snapshot);
            can(i, frame, behaviors[i](frame))
        }
}

/// In the run of the stages `from..` from `st` in which each system does
/// what `behaviors` says, every system that runs can hand back, on the
/// frame it sees, what `behaviors` says it hands back.
pub open spec fn explains_stages(
    accesses: Seq<AccessView>,
    can: Ability,
    behaviors: Seq<Behavior>,
    order: Seq<usize>,
    bounds: Seq<usize>,
    from: int,
    st: StateView,
) -> bool
    decreases bounds.len() - from,
{
    if from < 0 || from + 1 >= bounds.len() {
        true
    } else {
        let members = order.subrange(bounds[from] as int, bounds[from + 1] as int);
        let t = merge_stage(systems_of(accesses, behaviors), members, st, st);
        &&& explains_stage(accesses, can, behaviors, members, st)
        &&& t.result is Ok ==> explains_stages(
            accesses,
            can,
            behaviors,
            order,
            bounds,
            from + 1,
            t.state,
        )
    }
}

/// One call of a system's logic: the frame that it was handed and what it
/// handed back.
pub struct Record {
    pub system: usize,
    pub frame: FrameView,
    pub outcome: OutcomeView,
}

/// `behaviors` says of each recorded call what the call handed back.
pub open spec fn predicts(behaviors: Seq<Behavior>, records: Seq<Record>) -> bool {
    forall|q: int|
        0 <= q < records.len() ==> behaviors[(#[trigger] records[q]).system as int](
            records[q].frame,
        ) == records[q].outcome
}

/// No system was called twice.
pub open spec fn called_once(records: Seq<Record>) -> bool {
    forall|p: int, q: int|
        0 <= p < q < records.len() ==> (#[trigger] records[p]).system != (
        #[trigger] records[q]).system
}

/// What the recorded call of system `i` handed back.
pub open spec fn recorded_outcome(records: Seq<Record>, i: int) -> OutcomeView {
    let q = choose|q: int| 0 <= q < records.len() && (#[trigger] records[q]).system == i;
    records[q].outcome
}

/// Behaviors that hand back what was recorded, whatever the frame.
pub open spec fn replaying(n: nat, records: Seq<Record>) -> Seq<Behavior> {
    Seq::new(n, |i: int| |frame: FrameView| recorded_outcome(records, i))
}

/// Where no system was called twice, some behaviors say of every recorded
/// call what it handed back.
pub proof fn lemma_replaying_predicts(n: nat, records: Seq<Record>)
    requires
        called_once(records),
        forall|q: int| 0 <= q < records.len() ==> (#[trigger] records[q]).system < n,
    ensures
        predicts(replaying(n, records), records),
        replaying(n, records).len() == n,
{
    let behaviors = replaying(n, records);
    assert forall|q: int| 0 <= q < records.len() implies behaviors[(
    #[trigger] records[q]).system as int](records[q].frame) == records[q].outcome by {
        let i = records[q].system as int;
        let c = choose|c: int| 0 <= c < records.len() && (#[trigger] records[c]).system == i;
        if c < q {
            assert(records[c].system != records[q].system);
        }
        if q < c {
            assert(records[q].system != records[c].system);
        }
    }
}

} // verus!
