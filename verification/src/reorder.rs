//! Why systems that do not conflict may change places: the proofs behind the
//! plans of the concurrent executors.

use crate::access::{conflicts, overlaps, AccessView};
use crate::model::{
    attempt, completed, frame_of, merge_stage, run_order, settle, store_all, values_at,
    SystemModel, TickView,
};
use crate::state::{lemma_state_ext, lookup, put, Slot, StateView};
use vstd::prelude::*;

verus! {

/// A slot that is not stored into keeps its content.
pub proof fn lemma_store_all_untouched(
    st: StateView,
    slots: Seq<Slot>,
    values: Seq<Option<i64>>,
    s: Slot,
)
    requires
        !slots.contains(s),
    ensures
        lookup(store_all(st, slots, values), s) == lookup(st, s),
    decreases slots.len(),
{
    if slots.len() > 0 {
        assert(slots[0] != s);
        assert forall|i: int| 0 <= i < slots.drop_first().len() implies slots.drop_first()[i]
            != s by {
            assert(slots[i + 1] != s);
        }
        lemma_store_all_untouched(
            put(st, slots[0], values[0]),
            slots.drop_first(),
            values.drop_first(),
            s,
        );
    }
}

/// What a slot holds after it was stored into does not depend on the state
/// before.
pub proof fn lemma_store_all_decides(
    a: StateView,
    b: StateView,
    slots: Seq<Slot>,
    values: Seq<Option<i64>>,
    s: Slot,
)
    requires
        slots.contains(s),
    ensures
        lookup(store_all(a, slots, values), s) == lookup(store_all(b, slots, values), s),
    decreases slots.len(),
{
    let rest = slots.drop_first();
    let a1 = put(a, slots[0], values[0]);
    let b1 = put(b, slots[0], values[0]);
    if rest.contains(s) {
        lemma_store_all_decides(a1, b1, rest, values.drop_first(), s);
    } else {
        let i = choose|i: int| 0 <= i < slots.len() && slots[i] == s;
        if i > 0 {
            assert(rest[i - 1] == s);
        }
        assert(slots[0] == s);
        lemma_store_all_untouched(a1, rest, values.drop_first(), s);
        lemma_store_all_untouched(b1, rest, values.drop_first(), s);
    }
}

/// Storing into slots that a list does not name leaves what the list sees.
pub proof fn lemma_values_at_stable(
    st: StateView,
    stored: Seq<Slot>,
    values: Seq<Option<i64>>,
    seen: Seq<Slot>,
)
    requires
        !overlaps(stored, seen),
    ensures
        values_at(store_all(st, stored, values), seen) == values_at(st, seen),
{
    assert forall|j: int| 0 <= j < seen.len() implies lookup(
        store_all(st, stored, values),
        seen[j],
    ) == lookup(st, seen[j]) by {
        if stored.contains(seen[j]) {
            let i = choose|i: int| 0 <= i < stored.len() && stored[i] == seen[j];
            assert(0 <= i < stored.len() && 0 <= j < seen.len() && stored[i] == seen[j]);
        }
        lemma_store_all_untouched(st, stored, values, seen[j]);
    }
    assert(values_at(store_all(st, stored, values), seen) =~= values_at(st, seen));
}

/// A system sees the same frame before and after another system, with which
/// it does not conflict, has stored its values.
pub proof fn lemma_frame_stable(
    st: StateView,
    writer: AccessView,
    values: Seq<Option<i64>>,
    reader: AccessView,
)
    requires
        !conflicts(writer, reader),
    ensures
        frame_of(reader, store_all(st, writer.writes, values)) == frame_of(reader, st),
{
    lemma_values_at_stable(st, writer.writes, values, reader.reads);
    lemma_values_at_stable(st, writer.writes, values, reader.writes);
}

/// Stores into disjoint lists of slots may change places.
pub proof fn lemma_store_all_commutes(
    st: StateView,
    xs: Seq<Slot>,
    xv: Seq<Option<i64>>,
    ys: Seq<Slot>,
    yv: Seq<Option<i64>>,
)
    requires
        !overlaps(xs, ys),
    ensures
        store_all(store_all(st, xs, xv), ys, yv) == store_all(store_all(st, ys, yv), xs, xv),
{
    let left = store_all(store_all(st, xs, xv), ys, yv);
    let right = store_all(store_all(st, ys, yv), xs, xv);
    assert forall|s: Slot| lookup(left, s) == lookup(right, s) by {
        if xs.contains(s) && ys.contains(s) {
            let i = choose|i: int| 0 <= i < xs.len() && xs[i] == s;
            let j = choose|j: int| 0 <= j < ys.len() && ys[j] == s;
            assert(0 <= i < xs.len() && 0 <= j < ys.len() && xs[i] == ys[j]);
        } else if xs.contains(s) {
            lemma_store_all_untouched(store_all(st, xs, xv), ys, yv, s);
            lemma_store_all_decides(st, store_all(st, ys, yv), xs, xv, s);
        } else if ys.contains(s) {
            lemma_store_all_untouched(store_all(st, ys, yv), xs, xv, s);
            lemma_store_all_decides(st, store_all(st, xs, xv), ys, yv, s);
        } else {
            lemma_store_all_untouched(store_all(st, xs, xv), ys, yv, s);
            lemma_store_all_untouched(st, xs, xv, s);
            lemma_store_all_untouched(store_all(st, ys, yv), xs, xv, s);
            lemma_store_all_untouched(st, ys, yv, s);
        }
    }
    lemma_state_ext(left, right);
}

/// `x`, then `y`: the state after both, where both succeed.
pub open spec fn both(x: SystemModel, y: SystemModel, st: StateView) -> Option<StateView> {
    match attempt(x, st) {
        Ok(mid) => match attempt(y, mid) {
            Ok(end) => Some(end),
            Err(_) => None,
        },
        Err(_) => None,
    }
}

/// Two systems that do not conflict may change places.
pub proof fn lemma_attempts_commute(x: SystemModel, y: SystemModel, st: StateView)
    requires
        !conflicts(x.access, y.access),
    ensures
        both(x, y, st) == both(y, x, st),
{
    crate::access::lemma_conflicts_symmetric(x.access, y.access);
    let ox = (x.behavior)(frame_of(x.access, st));
    let oy = (y.behavior)(frame_of(y.access, st));
    if let Ok(xv) = ox {
        lemma_frame_stable(st, x.access, xv, y.access);
    }
    if let Ok(yv) = oy {
        lemma_frame_stable(st, y.access, yv, x.access);
    }
    if let Ok(xv) = ox {
        if let Ok(yv) = oy {
            lemma_store_all_commutes(st, x.access.writes, xv, y.access.writes, yv);
        }
    }
}

/// Running a list of systems is running its first, then the rest.
pub proof fn lemma_run_order_unfold(systems: Seq<SystemModel>, order: Seq<usize>, st: StateView)
    requires
        order.len() > 0,
    ensures
        completed(run_order(systems, order, st)) == (match attempt(
            systems[order[0] as int],
            st,
        ) {
            Ok(next) => completed(run_order(systems, order.drop_first(), next)),
            Err(_) => None,
        }),
{
}

/// A system that conflicts with none of those before it in `order` may run
/// first instead.
pub proof fn lemma_move_to_front(
    systems: Seq<SystemModel>,
    order: Seq<usize>,
    p: int,
    st: StateView,
)
    requires
        0 <= p < order.len(),
        forall|q: int|
            0 <= q < p ==> !conflicts(
                systems[#[trigger] order[q] as int].access,
                systems[order[p] as int].access,
            ),
    ensures
        completed(run_order(systems, order, st)) == completed(
            run_order(systems, seq![order[p]] + order.remove(p), st),
        ),
    decreases p,
{
    let moved = seq![order[p]] + order.remove(p);
    if p == 0 {
        assert(moved =~= order);
    } else {
        let h = order[0];
        let x = order[p];
        let tail = order.drop_first();
        let tail_rest = tail.remove(p - 1);
        let tail_moved = seq![x] + tail_rest;
        assert(tail[p - 1] == x);
        assert(moved.drop_first() =~= order.remove(p));
        assert(order.remove(p).drop_first() =~= tail_rest);
        assert(order.remove(p)[0] == h);
        assert(tail_moved.drop_first() =~= tail_rest);
        assert(!conflicts(systems[order[0] as int].access, systems[x as int].access));
        lemma_attempts_commute(systems[h as int], systems[x as int], st);
        lemma_run_order_unfold(systems, order, st);
        lemma_run_order_unfold(systems, moved, st);
        match attempt(systems[h as int], st) {
            Ok(after_h) => {
                assert forall|q: int| 0 <= q < p - 1 implies !conflicts(
                    systems[#[trigger] tail[q] as int].access,
                    systems[tail[p - 1] as int].access,
                ) by {
                    assert(tail[q] == order[q + 1]);
                }
                lemma_move_to_front(systems, tail, p - 1, after_h);
                lemma_run_order_unfold(systems, tail_moved, after_h);
            },
            Err(_) => {},
        }
        match attempt(systems[x as int], st) {
            Ok(after_x) => {
                lemma_run_order_unfold(systems, order.remove(p), after_x);
            },
            Err(_) => {},
        }
    }
}

/// `order` holds the system of index `i`.
pub open spec fn names(order: Seq<usize>, i: int) -> bool {
    exists|p: int| 0 <= p < order.len() && #[trigger] order[p] == i
}

/// `order` names each of the systems `from..n` once, and wherever it departs
/// from declaration order the two systems do not conflict.
pub open spec fn reorders(systems: Seq<SystemModel>, order: Seq<usize>, from: int) -> bool {
    &&& 0 <= from <= systems.len()
    &&& forall|p: int| 0 <= p < order.len() ==> from <= #[trigger] order[p] < systems.len()
    &&& forall|p: int, q: int| 0 <= p < q < order.len() ==> order[p] != order[q]
    &&& forall|i: int| from <= i < systems.len() ==> #[trigger] names(order, i)
    &&& forall|p: int, q: int|
        0 <= p < q < order.len() && order[p] > order[q] ==> !conflicts(
            systems[order[p] as int].access,
            systems[order[q] as int].access,
        )
}

/// The systems `from..n` in declaration order.
pub open spec fn declared_from(n: int, from: int) -> Seq<usize> {
    Seq::new((n - from) as nat, |i: int| (from + i) as usize)
}

/// Any order that departs from declaration order only where systems do not
/// conflict gives the tick that declaration order gives: the same success,
/// and on success the same state.
pub proof fn lemma_reordering_is_harmless(
    systems: Seq<SystemModel>,
    order: Seq<usize>,
    from: int,
    st: StateView,
)
    requires
        reorders(systems, order, from),
        systems.len() <= usize::MAX,
    ensures
        completed(run_order(systems, order, st)) == completed(
            run_order(systems, declared_from(systems.len() as int, from), st),
        ),
    decreases systems.len() - from,
{
    let n = systems.len() as int;
    let declared = declared_from(n, from);
    if from == n {
        if order.len() > 0 {
            assert(from <= order[0] < n);
        }
        assert(order =~= declared);
    } else {
        assert(names(order, from));
        let p = choose|p: int| 0 <= p < order.len() && #[trigger] order[p] == from;
        assert forall|q: int| 0 <= q < p implies !conflicts(
            systems[#[trigger] order[q] as int].access,
            systems[order[p] as int].access,
        ) by {
            assert(order[q] != order[p]);
            assert(order[q] > order[p]);
        }
        lemma_move_to_front(systems, order, p, st);
        let rest = order.remove(p);
        let moved = seq![order[p]] + rest;
        assert(moved.drop_first() =~= rest);
        assert(declared.drop_first() =~= declared_from(n, from + 1));
        assert(declared[0] == from as usize);
        lemma_run_order_unfold(systems, moved, st);
        lemma_run_order_unfold(systems, declared, st);
        assert forall|q: int| 0 <= q < rest.len() implies from + 1 <= #[trigger] rest[q] < n by {
            if q < p {
                assert(rest[q] == order[q]);
                assert(order[q] != order[p]);
            } else {
                assert(rest[q] == order[q + 1]);
                assert(order[p] != order[q + 1]);
            }
        }
        assert forall|a: int, b: int| 0 <= a < b < rest.len() implies rest[a] != rest[b] by {
            let a0 = if a < p { a } else { a + 1 };
            let b0 = if b < p { b } else { b + 1 };
            assert(rest[a] == order[a0] && rest[b] == order[b0]);
        }
        assert forall|i: int| from + 1 <= i < n implies #[trigger] names(rest, i) by {
            assert(names(order, i));
            let p0 = choose|p0: int| 0 <= p0 < order.len() && #[trigger] order[p0] == i;
            let q = if p0 < p { p0 } else { p0 - 1 };
            assert(p0 != p);
            assert(0 <= q < rest.len() && rest[q] == i);
        }
        assert forall|a: int, b: int|
            0 <= a < b < rest.len() && rest[a] > rest[b] implies !conflicts(
            systems[rest[a] as int].access,
            systems[rest[b] as int].access,
        ) by {
            let a0 = if a < p { a } else { a + 1 };
            let b0 = if b < p { b } else { b + 1 };
            assert(rest[a] == order[a0] && rest[b] == order[b0]);
        }
        assert(reorders(systems, rest, from + 1));
        match attempt(systems[from], st) {
            Ok(next) => {
                lemma_reordering_is_harmless(systems, rest, from + 1, next);
            },
            Err(_) => {},
        }
    }
}

/// Running one list of systems and then another is running the two lists
/// joined.
pub proof fn lemma_run_order_concat(
    systems: Seq<SystemModel>,
    first: Seq<usize>,
    second: Seq<usize>,
    st: StateView,
)
    ensures
        completed(run_order(systems, first + second, st)) == (match completed(
            run_order(systems, first, st),
        ) {
            Some(mid) => completed(run_order(systems, second, mid)),
            None => None,
        }),
    decreases first.len(),
{
    if first.len() == 0 {
        assert(first + second =~= second);
    } else {
        assert((first + second).drop_first() =~= first.drop_first() + second);
        assert((first + second)[0] == first[0]);
        match attempt(systems[first[0] as int], st) {
            Ok(next) => {
                lemma_run_order_concat(systems, first.drop_first(), second, next);
            },
            Err(_) => {},
        }
    }
}

/// No two of `members` conflict.
pub open spec fn independent(systems: Seq<SystemModel>, members: Seq<usize>) -> bool {
    forall|p: int, q: int|
        0 <= p < members.len() && 0 <= q < members.len() && p != q ==> !conflicts(
            systems[#[trigger] members[p] as int].access,
            systems[#[trigger] members[q] as int].access,
        )
}

/// Each of `members` sees in `st` the frame that it sees in `snapshot`.
pub open spec fn same_frames(
    systems: Seq<SystemModel>,
    members: Seq<usize>,
    snapshot: StateView,
    st: StateView,
) -> bool {
    forall|p: int|
        0 <= p < members.len() ==> frame_of(systems[#[trigger] members[p] as int].access, st)
            == frame_of(systems[members[p] as int].access, snapshot)
}

/// Systems that do not conflict with each other, run together on one
/// snapshot, give what they give when run one after the other.
pub proof fn lemma_stage_is_sequence(
    systems: Seq<SystemModel>,
    members: Seq<usize>,
    snapshot: StateView,
    st: StateView,
)
    requires
        independent(systems, members),
        same_frames(systems, members, snapshot, st),
    ensures
        completed(merge_stage(systems, members, snapshot, st)) == completed(
            run_order(systems, members, st),
        ),
    decreases members.len(),
{
    if members.len() > 0 {
        let sys = systems[members[0] as int];
        let rest = members.drop_first();
        assert(frame_of(sys.access, st) == frame_of(sys.access, snapshot));
        match attempt(sys, st) {
            Ok(next) => {
                let values = (sys.behavior)(frame_of(sys.access, st))->Ok_0;
                assert forall|p: int, q: int|
                    0 <= p < rest.len() && 0 <= q < rest.len() && p != q implies !conflicts(
                    systems[#[trigger] rest[p] as int].access,
                    systems[#[trigger] rest[q] as int].access,
                ) by {
                    assert(rest[p] == members[p + 1] && rest[q] == members[q + 1]);
                }
                assert forall|p: int| 0 <= p < rest.len() implies frame_of(
                    systems[#[trigger] rest[p] as int].access,
                    next,
                ) == frame_of(systems[rest[p] as int].access, snapshot) by {
                    assert(rest[p] == members[p + 1]);
                    assert(!conflicts(sys.access, systems[members[p + 1] as int].access));
                    lemma_frame_stable(st, sys.access, values, systems[rest[p] as int].access);
                }
                lemma_stage_is_sequence(systems, rest, snapshot, next);
            },
            Err(_) => {},
        }
    }
}

/// What `sys` hands back on the frame that it sees in `snapshot` can be
/// stored.
pub open spec fn succeeds_on(sys: SystemModel, snapshot: StateView) -> bool {
    settle(sys.access, (sys.behavior)(frame_of(sys.access, snapshot)), snapshot) is Ok
}

/// Of the members of a stage, run together on one snapshot, those that
/// succeed leave the state that they leave when run one after the other;
/// the members that fail leave nothing. The members that succeed are
/// returned, in the order of the stage.
pub proof fn lemma_stage_survivors(
    systems: Seq<SystemModel>,
    members: Seq<usize>,
    snapshot: StateView,
    st: StateView,
) -> (kept: Seq<usize>)
    requires
        independent(systems, members),
        same_frames(systems, members, snapshot, st),
    ensures
        forall|p: int|
            0 <= p < kept.len() ==> members.contains(#[trigger] kept[p]) && succeeds_on(
                systems[kept[p] as int],
                snapshot,
            ),
        merge_stage(systems, members, snapshot, st).result matches Err(failure) ==> members.contains(
            failure.system,
        ) && !succeeds_on(systems[failure.system as int], snapshot),
        run_order(systems, kept, st) == (TickView {
            state: merge_stage(systems, members, snapshot, st).state,
            result: Ok(()),
        }),
    decreases members.len(),
{
    if members.len() == 0 {
        Seq::empty()
    } else {
        let sys = systems[members[0] as int];
        let rest = members.drop_first();
        assert(frame_of(sys.access, st) == frame_of(sys.access, snapshot));
        assert forall|p: int, q: int|
            0 <= p < rest.len() && 0 <= q < rest.len() && p != q implies !conflicts(
            systems[#[trigger] rest[p] as int].access,
            systems[#[trigger] rest[q] as int].access,
        ) by {
            assert(rest[p] == members[p + 1] && rest[q] == members[q + 1]);
        }
        assert forall|x: usize| rest.contains(x) implies members.contains(x) by {
            let p = choose|p: int| 0 <= p < rest.len() && rest[p] == x;
            assert(members[p + 1] == x);
        }
        assert(members.contains(members[0]));
        match attempt(sys, st) {
            Ok(next) => {
                let values = (sys.behavior)(frame_of(sys.access, st))->Ok_0;
                assert forall|p: int| 0 <= p < rest.len() implies frame_of(
                    systems[#[trigger] rest[p] as int].access,
                    next,
                ) == frame_of(systems[rest[p] as int].access, snapshot) by {
                    assert(rest[p] == members[p + 1]);
                    assert(!conflicts(sys.access, systems[members[p + 1] as int].access));
                    lemma_frame_stable(st, sys.access, values, systems[rest[p] as int].access);
                }
                let kept_rest = lemma_stage_survivors(systems, rest, snapshot, next);
                let kept = seq![members[0]] + kept_rest;
                assert(kept.drop_first() =~= kept_rest);
                assert forall|p: int| 0 <= p < kept.len() implies members.contains(
                    #[trigger] kept[p],
                ) && succeeds_on(systems[kept[p] as int], snapshot) by {
                    if p > 0 {
                        assert(kept[p] == kept_rest[p - 1]);
                    }
                }
                kept
            },
            Err(_) => {
                assert forall|p: int| 0 <= p < rest.len() implies frame_of(
                    systems[#[trigger] rest[p] as int].access,
                    st,
                ) == frame_of(systems[rest[p] as int].access, snapshot) by {
                    assert(rest[p] == members[p + 1]);
                }
                lemma_stage_survivors(systems, rest, snapshot, st)
            },
        }
    }
}

} // verus!
