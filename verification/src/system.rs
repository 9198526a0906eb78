//! Systems: the units of logic that a schedule runs, and what passes
//! between them and the shared state.

use crate::access::Access;
use crate::error::{FailureCause, SystemFailure};
use crate::model::{frame_of, settle, store_all, values_at, FrameView, OutcomeView};
use crate::reorder::lemma_store_all_untouched;
use crate::state::{lookup, put, SharedState, Slot};
use vstd::prelude::*;

verus! {

/// What a system is handed when it runs: the content of the slots it reads
/// and of the slots it holds exclusively, in the order of its declaration.
#[derive(Debug)]
pub struct Frame {
    pub reads: Vec<Option<i64>>,
    pub writes: Vec<Option<i64>>,
}

impl View for Frame {
    type V = FrameView;

    open spec fn view(&self) -> FrameView {
        FrameView { reads: self.reads@, writes: self.writes@ }
    }
}

/// What a system hands back: the new content of each slot it holds
/// exclusively (`None` empties the slot), or the code of its failure.
pub type Outcome = Result<Vec<Option<i64>>, u32>;

/// The model of an outcome.
pub open spec fn outcome_view(o: Outcome) -> OutcomeView {
    match o {
        Ok(values) => Ok(values@),
        Err(code) => Err(code),
    }
}

/// A system: its logic and the access that it declares.
pub struct SystemDescriptor<S> {
    pub logic: S,
    pub access: Access,
}

/// Reads the content of each of `slots`.
pub fn gather(state: &SharedState, slots: &Vec<Slot>) -> (values: Vec<Option<i64>>)
    ensures
        values@ == values_at(state@, slots@),
{
    let mut values: Vec<Option<i64>> = Vec::new();
    let mut i: usize = 0;
    while i < slots.len()
        invariant
            i <= slots.len(),
            values.len() == i,
            forall|k: int| 0 <= k < i ==> values[k] == lookup(state@, slots[k]),
        decreases slots.len() - i,
    {
        values.push(state.read(slots[i]));
        i += 1;
    }
    assert(values@ =~= values_at(state@, slots@));
    values
}

/// The frame that a system with this access sees in `state`.
pub fn build_frame(access: &Access, state: &SharedState) -> (frame: Frame)
    ensures
        frame@ == frame_of(access@, state@),
{
    Frame { reads: gather(state, &access.reads), writes: gather(state, &access.writes) }
}

/// Stores `values` into `slots`, one after the other.
pub fn scatter(state: &mut SharedState, slots: &Vec<Slot>, values: &Vec<Option<i64>>)
    requires
        slots.len() == values.len(),
    ensures
        final(state)@ == store_all(old(state)@, slots@, values@),
{
    let mut i: usize = 0;
    assert(slots@.skip(0) =~= slots@ && values@.skip(0) =~= values@);
    while i < slots.len()
        invariant
            i <= slots.len(),
            slots.len() == values.len(),
            store_all(old(state)@, slots@, values@) == store_all(
                state@,
                slots@.skip(i as int),
                values@.skip(i as int),
            ),
        decreases slots.len() - i,
    {
        let ghost before = state@;
        state.write(slots[i], values[i]);
        proof {
            let s = slots@.skip(i as int);
            let v = values@.skip(i as int);
            assert(s.drop_first() =~= slots@.skip(i + 1));
            assert(v.drop_first() =~= values@.skip(i + 1));
            assert(s[0] == slots@[i as int] && v[0] == values@[i as int]);
            assert(state@ == put(before, s[0], v[0]));
        }
        i += 1;
    }
}

/// Settles what system number `system` handed back: stores its values where
/// it holds exclusive access, or leaves the state as it is and reports the
/// failure.
pub fn commit(state: &mut SharedState, access: &Access, system: usize, outcome: &Outcome) -> (r:
    Result<(), SystemFailure>)
    ensures
        match settle(access@, outcome_view(*outcome), old(state)@) {
            Ok(next) => r is Ok && final(state)@ == next,
            Err(cause) => r == Err::<(), SystemFailure>(SystemFailure { system, cause })
                && final(state)@ == old(state)@,
        },
        forall|slot: Slot|
            !access@.writes.contains(slot) ==> lookup(final(state)@, slot) == lookup(
                old(state)@,
                slot,
            ),
{
    match outcome {
        Err(code) => Err(SystemFailure { system, cause: FailureCause::Signalled(*code) }),
        Ok(values) => {
            if values.len() == access.writes.len() {
                scatter(state, &access.writes, values);
                proof {
                    assert forall|slot: Slot| !access@.writes.contains(slot) implies lookup(
                        state@,
                        slot,
                    ) == lookup(old(state)@, slot) by {
                        lemma_store_all_untouched(old(state)@, access@.writes, values@, slot);
                    }
                }
                Ok(())
            } else {
                Err(SystemFailure { system, cause: FailureCause::Malformed })
            }
        },
    }
}

} // verus!
