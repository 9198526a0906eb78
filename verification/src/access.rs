//! What a system declares up front: the slots it only reads and the slots it
//! holds exclusively.

use crate::state::Slot;
use vstd::prelude::*;

verus! {

/// The model of a declared access: the slots read and the slots written, in
/// the order in which they were declared.
pub struct AccessView {
    pub reads: Seq<Slot>,
    pub writes: Seq<Slot>,
}

/// Some slot occurs in both lists.
pub open spec fn overlaps(xs: Seq<Slot>, ys: Seq<Slot>) -> bool {
    exists|i: int, j: int| 0 <= i < xs.len() && 0 <= j < ys.len() && xs[i] == ys[j]
}

/// Two accesses conflict when a slot that one of them writes is read or
/// written by the other.
pub open spec fn conflicts(a: AccessView, b: AccessView) -> bool {
    ||| overlaps(a.writes, b.writes)
    ||| overlaps(a.writes, b.reads)
    ||| overlaps(a.reads, b.writes)
}

/// Conflict does not depend on which access is named first.
pub proof fn lemma_conflicts_symmetric(a: AccessView, b: AccessView)
    ensures
        conflicts(a, b) == conflicts(b, a),
{
    lemma_overlaps_symmetric(a.writes, b.writes);
    lemma_overlaps_symmetric(a.writes, b.reads);
    lemma_overlaps_symmetric(a.reads, b.writes);
}

pub proof fn lemma_overlaps_symmetric(xs: Seq<Slot>, ys: Seq<Slot>)
    ensures
        overlaps(xs, ys) == overlaps(ys, xs),
{
    if overlaps(xs, ys) {
        let (i, j) = choose|i: int, j: int|
            0 <= i < xs.len() && 0 <= j < ys.len() && xs[i] == ys[j];
        assert(0 <= j < ys.len() && 0 <= i < xs.len() && ys[j] == xs[i]);
    }
    if overlaps(ys, xs) {
        let (j, i) = choose|j: int, i: int|
            0 <= j < ys.len() && 0 <= i < xs.len() && ys[j] == xs[i];
        assert(0 <= i < xs.len() && 0 <= j < ys.len() && xs[i] == ys[j]);
    }
}

/// The access that a system declares.
#[derive(Debug)]
pub struct Access {
    pub reads: Vec<Slot>,
    pub writes: Vec<Slot>,
}

impl View for Access {
    type V = AccessView;

    open spec fn view(&self) -> AccessView {
        AccessView { reads: self.reads@, writes: self.writes@ }
    }
}

/// Whether `slot` occurs in `slots`.
pub fn contains_slot(slots: &Vec<Slot>, slot: Slot) -> (r: bool)
    ensures
        r == slots@.contains(slot),
{
    let mut i: usize = 0;
    while i < slots.len()
        invariant
            i <= slots.len(),
            forall|k: int| 0 <= k < i ==> slots@[k] != slot,
        decreases slots.len() - i,
    {
        if slots[i] == slot {
            return true;
        }
        i += 1;
    }
    false
}

/// Whether the two lists share a slot.
pub fn slots_overlap(xs: &Vec<Slot>, ys: &Vec<Slot>) -> (r: bool)
    ensures
        r == overlaps(xs@, ys@),
{
    let mut i: usize = 0;
    while i < xs.len()
        invariant
            i <= xs.len(),
            forall|k: int, j: int| 0 <= k < i && 0 <= j < ys.len() ==> xs@[k] != ys@[j],
        decreases xs.len() - i,
    {
        if contains_slot(ys, xs[i]) {
            let ghost j = choose|j: int| 0 <= j < ys.len() && ys@[j] == xs@[i as int];
            assert(0 <= i < xs.len() && 0 <= j < ys.len() && xs@[i as int] == ys@[j]);
            return true;
        }
        i += 1;
    }
    false
}

impl Access {
    /// An access that touches nothing.
    pub fn new() -> (r: Self)
        ensures
            r@.reads.len() == 0,
            r@.writes.len() == 0,
    {
        Access { reads: Vec::new(), writes: Vec::new() }
    }

    /// Adds shared, read-only access to `slot`.
    pub fn read(self, slot: Slot) -> (r: Self)
        ensures
            r@.reads == self@.reads.push(slot),
            r@.writes == self@.writes,
    {
        let mut a = self;
        a.reads.push(slot);
        a
    }

    /// Adds exclusive access to `slot`.
    pub fn write(self, slot: Slot) -> (r: Self)
        ensures
            r@.reads == self@.reads,
            r@.writes == self@.writes.push(slot),
    {
        let mut a = self;
        a.writes.push(slot);
        a
    }

    /// Whether this access and `other` may not be held at the same time.
    pub fn conflicts_with(&self, other: &Access) -> (r: bool)
        ensures
            r == conflicts(self@, other@),
    {
        slots_overlap(&self.writes, &other.writes) || slots_overlap(&self.writes, &other.reads)
            || slots_overlap(&self.reads, &other.writes)
    }

    /// A copy of this access.
    pub fn duplicate(&self) -> (r: Self)
        ensures
            r@ == self@,
    {
        let mut reads: Vec<Slot> = Vec::new();
        let mut i: usize = 0;
        while i < self.reads.len()
            invariant
                i <= self.reads.len(),
                reads@ == self.reads@.subrange(0, i as int),
            decreases self.reads.len() - i,
        {
            reads.push(self.reads[i]);
            assert(reads@ =~= self.reads@.subrange(0, i + 1));
            i += 1;
        }
        assert(reads@ =~= self.reads@);
        let mut writes: Vec<Slot> = Vec::new();
        let mut j: usize = 0;
        while j < self.writes.len()
            invariant
                j <= self.writes.len(),
                writes@ == self.writes@.subrange(0, j as int),
            decreases self.writes.len() - j,
        {
            writes.push(self.writes[j]);
            assert(writes@ =~= self.writes@.subrange(0, j + 1));
            j += 1;
        }
        assert(writes@ =~= self.writes@);
        Access { reads, writes }
    }
}

} // verus!
