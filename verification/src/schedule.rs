//! A schedule: the systems of one phase, in the order of their declaration.

use crate::access::{Access, AccessView};
use crate::error::{ConfigurationError, SystemFailure};
use crate::executor::Executor;
use crate::model::{
    called_once, explains_order, frame_of, lemma_replaying_predicts, predicts, replaying,
    run_order, systems_of, written, Ability, Behavior, FrameView, OutcomeView, Record,
    SystemModel,
};
use crate::options::ParallelExecutorOptions;
use crate::plan::access_views;
use crate::state::{lookup, SharedState, Slot, StateView};
use crate::system::{build_frame, commit, outcome_view, Frame, Outcome, SystemDescriptor};
use vstd::prelude::*;

verus! {

/// The systems of one phase.
pub struct Schedule<S: Fn(Frame) -> Outcome> {
    systems: Vec<SystemDescriptor<S>>,
}

impl<S: Fn(Frame) -> Outcome> Schedule<S> {
    #[verifier::type_invariant]
    spec fn callable(self) -> bool {
        forall|i: int, f: Frame|
            0 <= i < self.systems.len() ==> #[trigger] call_requires(self.systems[i].logic, (f,))
    }

    /// The accesses that the systems declare, in declaration order.
    pub closed spec fn accesses(&self) -> Seq<AccessView> {
        self.systems@.map_values(|d: SystemDescriptor<S>| d.access@)
    }

    /// The logic of each system, in declaration order.
    pub closed spec fn logics(&self) -> Seq<S> {
        self.systems@.map_values(|d: SystemDescriptor<S>| d.logic)
    }

    /// The number of systems.
    pub open spec fn count(&self) -> nat {
        self.accesses().len()
    }

    /// System `i`, handed a frame of view `frame`, may hand back an outcome
    /// of view `outcome`.
    pub open spec fn produces(&self, i: int, frame: FrameView, outcome: OutcomeView) -> bool {
        exists|f: Frame, o: Outcome|
            f@ == frame && outcome_view(o) == outcome && call_ensures(self.logics()[i], (f,), o)
    }

    /// Each system is deterministic, and `behaviors` describes what each does.
    pub open spec fn follows(&self, behaviors: Seq<Behavior>) -> bool {
        &&& behaviors.len() == self.count()
        &&& forall|i: int, frame: FrameView, outcome: OutcomeView|
            0 <= i < self.count() && #[trigger] self.produces(i, frame, outcome) ==> outcome
                == behaviors[i](frame)
    }

    /// The systems as the model sees them, given what they do.
    pub open spec fn model(&self, behaviors: Seq<Behavior>) -> Seq<SystemModel> {
        systems_of(self.accesses(), behaviors)
    }

    /// The number of systems fits the machine.
    pub proof fn lemma_count_bounded(&self)
        ensures
            self.count() <= usize::MAX,
            self.logics().len() == self.count(),
    {
        assert(self.systems@.len() == self.systems.len());
    }

    /// A schedule without systems.
    pub fn new() -> (r: Self)
        ensures
            r.accesses() == Seq::<AccessView>::empty(),
            r.logics() == Seq::<S>::empty(),
    {
        let r = Schedule { systems: Vec::new() };
        assert(r.accesses() =~= Seq::<AccessView>::empty());
        assert(r.logics() =~= Seq::<S>::empty());
        r
    }

    /// Appends a system. Its logic must accept every frame.
    pub fn add_system(&mut self, descriptor: SystemDescriptor<S>)
        requires
            forall|f: Frame| call_requires(descriptor.logic, (f,)),
        ensures
            final(self).accesses() == old(self).accesses().push(descriptor.access@),
            final(self).logics() == old(self).logics().push(descriptor.logic),
    {
        let mut taken = Schedule { systems: Vec::new() };
        std::mem::swap(self, &mut taken);
        proof {
            use_type_invariant(&taken);
        }
        let Schedule { systems } = taken;
        let mut systems = systems;
        systems.push(descriptor);
        *self = Schedule { systems };
        assert(self.accesses() =~= old(self).accesses().push(descriptor.access@));
        assert(self.logics() =~= old(self).logics().push(descriptor.logic));
    }

    /// The number of systems.
    pub fn len(&self) -> (n: usize)
        ensures
            n == self.count(),
    {
        self.systems.len()
    }

    /// The access that system `i` declares.
    pub fn access(&self, i: usize) -> (a: &Access)
        requires
            i < self.count(),
        ensures
            a@ == self.accesses()[i as int],
    {
        &self.systems[i].access
    }

    /// The accesses that the systems declare, in declaration order.
    pub fn access_list(&self) -> (list: Vec<Access>)
        ensures
            access_views(list@) == self.accesses(),
    {
        let mut list: Vec<Access> = Vec::new();
        let mut i: usize = 0;
        while i < self.systems.len()
            invariant
                i <= self.systems.len(),
                list.len() == i,
                forall|k: int| 0 <= k < i ==> list[k]@ == self.systems[k].access@,
            decreases self.systems.len() - i,
        {
            list.push(self.systems[i].access.duplicate());
            i += 1;
        }
        assert(access_views(list@) =~= self.accesses());
        list
    }

    /// Hands system `i` the frame that it sees in `state`, and returns what
    /// the system hands back.
    pub fn invoke(&self, i: usize, state: &SharedState) -> (outcome: Outcome)
        requires
            i < self.count(),
        ensures
            self.produces(
                i as int,
                frame_of(self.accesses()[i as int], state@),
                outcome_view(outcome),
            ),
    {
        proof {
            use_type_invariant(self);
        }
        let frame = build_frame(&self.systems[i].access, state);
        let ghost handed = frame;
        let outcome = (self.systems[i].logic)(frame);
        assert(call_ensures(self.logics()[i as int], (handed,), outcome));
        outcome
    }

    /// Each recorded call is one that the system it names can make.
    pub open spec fn made(&self, records: Seq<Record>) -> bool {
        forall|q: int|
            0 <= q < records.len() ==> {
                &&& (#[trigger] records[q]).system < self.count()
                &&& self.produces(records[q].system as int, records[q].frame, records[q].outcome)
            }
    }

    /// What the systems can do.
    pub open spec fn ability(&self) -> Ability {
        |i: int, frame: FrameView, outcome: OutcomeView| self.produces(i, frame, outcome)
    }

    /// Of calls that were made, none of a system twice: there are behaviors
    /// that say of every call what it handed back, and the behaviors that
    /// describe deterministic systems do so.
    pub proof fn lemma_recorded(&self, records: Seq<Record>)
        requires
            self.made(records),
            called_once(records),
        ensures
            replaying(self.count(), records).len() == self.count(),
            predicts(replaying(self.count(), records), records),
            forall|behaviors: Seq<Behavior>| #[trigger]
                self.follows(behaviors) ==> predicts(behaviors, records),
    {
        lemma_replaying_predicts(self.count(), records);
        assert forall|behaviors: Seq<Behavior>| #[trigger]
            self.follows(behaviors) implies predicts(behaviors, records) by {
            assert forall|q: int| 0 <= q < records.len() implies behaviors[(
            #[trigger] records[q]).system as int](records[q].frame) == records[q].outcome by {
                assert(self.produces(
                    records[q].system as int,
                    records[q].frame,
                    records[q].outcome,
                ));
            }
        }
    }

    /// Runs the systems that `order` names, one after the other, each on
    /// the state that the one before left, and stops at the first that
    /// fails. The tick is the one of `run_order` for behaviors that the
    /// systems really have; if the systems are deterministic, for the
    /// behaviors that describe them.
    pub fn run_in_order(&self, order: &Vec<usize>, state: &mut SharedState) -> (r: Result<
        (),
        SystemFailure,
    >)
        requires
            forall|p: int| 0 <= p < order.len() ==> #[trigger] order[p] < self.count(),
            forall|p: int, q: int| 0 <= p < q < order.len() ==> order[p] != order[q],
        ensures
            exists|behaviors: Seq<Behavior>|
                {
                    &&& behaviors.len() == self.count()
                    &&& #[trigger] explains_order(
                        self.accesses(),
                        self.ability(),
                        behaviors,
                        order@,
                        old(state)@,
                    )
                    &&& final(state)@ == run_order(
                        self.model(behaviors),
                        order@,
                        old(state)@,
                    ).state
                    &&& r == run_order(self.model(behaviors), order@, old(state)@).result
                },
            forall|behaviors: Seq<Behavior>| #[trigger]
                self.follows(behaviors) ==> {
                    let t = run_order(self.model(behaviors), order@, old(state)@);
                    final(state)@ == t.state && r == t.result
                },
            r matches Err(failure) ==> failure.system < self.count(),
            forall|slot: Slot|
                !written(self.accesses(), slot) ==> lookup(final(state)@, slot) == lookup(
                    old(state)@,
                    slot,
                ),
    {
        let ghost start = state@;
        let ghost mut records: Seq<Record> = Seq::empty();
        let mut p: usize = 0;
        assert(order@.skip(0) =~= order@);
        while p < order.len()
            invariant
                p <= order.len(),
                start == old(state)@,
                forall|q: int| 0 <= q < order.len() ==> #[trigger] order[q] < self.count(),
                forall|a: int, b: int| 0 <= a < b < order.len() ==> order[a] != order[b],
                records.len() == p,
                forall|q: int| 0 <= q < p ==> (#[trigger] records[q]).system == order[q],
                self.made(records),
                forall|slot: Slot|
                    !written(self.accesses(), slot) ==> lookup(state@, slot) == lookup(start, slot),
                forall|behaviors: Seq<Behavior>| #[trigger]
                    predicts(behaviors, records) ==> {
                        &&& run_order(self.model(behaviors), order@, start) == run_order(
                            self.model(behaviors),
                            order@.skip(p as int),
                            state@,
                        )
                        &&& explains_order(
                            self.accesses(),
                            self.ability(),
                            behaviors,
                            order@.skip(p as int),
                            state@,
                        ) ==> explains_order(
                            self.accesses(),
                            self.ability(),
                            behaviors,
                            order@,
                            start,
                        )
                    },
            decreases order.len() - p,
        {
            let ghost before = state@;
            let ghost known = records;
            let system = order[p];
            let outcome = self.invoke(system, state);
            let r = commit(state, &self.systems[system].access, system, &outcome);
            proof {
                let call = Record {
                    system,
                    frame: frame_of(self.accesses()[system as int], before),
                    outcome: outcome_view(outcome),
                };
                records = known.push(call);
                let rest = order@.skip(p as int);
                assert(rest.drop_first() =~= order@.skip(p + 1));
                assert(rest[0] == system);
                assert forall|behaviors: Seq<Behavior>| #[trigger]
                    predicts(behaviors, records) implies predicts(behaviors, known)
                    && behaviors[system as int](call.frame) == call.outcome by {
                    assert(records[p as int] == call);
                    assert forall|q: int| 0 <= q < known.len() implies behaviors[(
                    #[trigger] known[q]).system as int](known[q].frame) == known[q].outcome by {
                        assert(records[q] == known[q]);
                    }
                }
            }
            if let Err(failure) = r {
                proof {
                    self.lemma_recorded(records);
                    let witness = replaying(self.count(), records);
                    assert(explains_order(self.accesses(), self.ability(), witness, order@, start));
                }
                return Err(failure);
            }
            p += 1;
        }
        proof {
            self.lemma_recorded(records);
            let witness = replaying(self.count(), records);
            assert(explains_order(self.accesses(), self.ability(), witness, order@, start));
        }
        Ok(())
    }

    /// Binds an executor to this schedule, unless one is bound already:
    /// the slot is then left as it is.
    pub fn initialize<E: Executor>(
        &self,
        slot: &mut Option<E>,
        options: &ParallelExecutorOptions,
        name: &str,
        repeating: bool,
    ) -> (r: Result<(), ConfigurationError>)
        ensures
            *old(slot) is Some ==> r is Ok && *final(slot) == *old(slot),
            *old(slot) is None ==> match r {
                Ok(()) => {
                    &&& E::admits(*options, None)
                    &&& *final(slot) matches Some(e)
                    &&& e.fits(self.accesses())
                    &&& e.label() == name@
                    &&& e.repeating() == repeating
                },
                Err(err) => E::admits(*options, Some(err)) && *final(slot) is None,
            },
    {
        if slot.is_some() {
            return Ok(());
        }
        let accesses = self.access_list();
        match E::new(name, repeating, options, &accesses) {
            Ok(executor) => {
                *slot = Some(executor);
                Ok(())
            },
            Err(err) => Err(err),
        }
    }
}

} // verus!
