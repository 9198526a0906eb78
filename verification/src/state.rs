//! The shared state that systems work on: a world of entities and a registry
//! of resources, both addressed by slot.

use std::collections::HashMap;
use vstd::prelude::*;

verus! {

broadcast use vstd::std_specs::hash::group_hash_axioms;

/// Which of the two containers a slot lives in.
#[derive(Clone, Copy, Debug, PartialEq, Eq, Structural, Hash)]
pub enum Container {
    World,
    Resources,
}

/// The address of one cell of shared state.
#[derive(Clone, Copy, Debug, PartialEq, Eq, Structural, Hash)]
pub struct Slot {
    pub container: Container,
    pub key: u64,
}

/// The mathematical model of the shared state: the occupied slots and their values.
pub type StateView = Map<Slot, i64>;

/// The content of a slot, `None` where it is empty.
pub open spec fn lookup(st: StateView, slot: Slot) -> Option<i64> {
    if st.contains_key(slot) {
        Some(st[slot])
    } else {
        None
    }
}

/// The state with `slot` set to `value`, or emptied where `value` is `None`.
pub open spec fn put(st: StateView, slot: Slot, value: Option<i64>) -> StateView {
    match value {
        Some(v) => st.insert(slot, v),
        None => st.remove(slot),
    }
}

/// Two states that agree on every slot are the same state.
pub proof fn lemma_state_ext(a: StateView, b: StateView)
    requires
        forall|s: Slot| lookup(a, s) == lookup(b, s),
    ensures
        a == b,
{
    assert forall|s: Slot| a.contains_key(s) == b.contains_key(s) by {
        assert(lookup(a, s) == lookup(b, s));
    }
    assert forall|s: Slot| a.contains_key(s) implies a[s] == b[s] by {
        assert(lookup(a, s) == lookup(b, s));
    }
    assert(a =~= b);
}

/// The entity store: component values by entity key.
pub struct World {
    cells: HashMap<u64, i64>,
}

/// The registry of singleton values, by resource key.
pub struct Resources {
    cells: HashMap<u64, i64>,
}

impl View for World {
    type V = Map<u64, i64>;

    closed spec fn view(&self) -> Map<u64, i64> {
        self.cells@
    }
}

impl View for Resources {
    type V = Map<u64, i64>;

    closed spec fn view(&self) -> Map<u64, i64> {
        self.cells@
    }
}

impl World {
    pub fn new() -> (r: Self)
        ensures
            r@ == Map::<u64, i64>::empty(),
    {
        World { cells: HashMap::new() }
    }

    /// The component stored for `key`, if any.
    pub fn get(&self, key: u64) -> (r: Option<i64>)
        ensures
            r == (if self@.contains_key(key) { Some(self@[key]) } else { None }),
    {
        match self.cells.get(&key) {
            Some(v) => Some(*v),
            None => None,
        }
    }

    /// Stores `value` for `key`, replacing what was there.
    pub fn insert(&mut self, key: u64, value: i64)
        ensures
            final(self)@ == old(self)@.insert(key, value),
    {
        self.cells.insert(key, value);
    }

    /// Empties `key`.
    pub fn remove(&mut self, key: u64)
        ensures
            final(self)@ == old(self)@.remove(key),
    {
        self.cells.remove(&key);
    }
}

impl Resources {
    pub fn new() -> (r: Self)
        ensures
            r@ == Map::<u64, i64>::empty(),
    {
        Resources { cells: HashMap::new() }
    }

    /// The value registered under `key`, if any.
    pub fn get(&self, key: u64) -> (r: Option<i64>)
        ensures
            r == (if self@.contains_key(key) { Some(self@[key]) } else { None }),
    {
        match self.cells.get(&key) {
            Some(v) => Some(*v),
            None => None,
        }
    }

    /// Registers `value` under `key`, replacing what was there.
    pub fn insert(&mut self, key: u64, value: i64)
        ensures
            final(self)@ == old(self)@.insert(key, value),
    {
        self.cells.insert(key, value);
    }

    /// Removes what is registered under `key`.
    pub fn remove(&mut self, key: u64)
        ensures
            final(self)@ == old(self)@.remove(key),
    {
        self.cells.remove(&key);
    }
}

/// The single owner of both containers.
pub struct SharedState {
    pub world: World,
    pub resources: Resources,
}

impl View for SharedState {
    type V = StateView;

    open spec fn view(&self) -> StateView {
        Map::new(
            |s: Slot|
                match s.container {
                    Container::World => self.world@.contains_key(s.key),
                    Container::Resources => self.resources@.contains_key(s.key),
                },
            |s: Slot|
                match s.container {
                    Container::World => self.world@[s.key],
                    Container::Resources => self.resources@[s.key],
                },
        )
    }
}

impl SharedState {
    /// An empty world and an empty registry.
    pub fn new() -> (r: Self)
        ensures
            r@ == Map::<Slot, i64>::empty(),
    {
        let r = SharedState { world: World::new(), resources: Resources::new() };
        assert(r@ =~= Map::<Slot, i64>::empty());
        r
    }

    /// The content of `slot`.
    pub fn read(&self, slot: Slot) -> (r: Option<i64>)
        ensures
            r == lookup(self@, slot),
    {
        match slot.container {
            Container::World => self.world.get(slot.key),
            Container::Resources => self.resources.get(slot.key),
        }
    }

    /// Sets `slot` to `value`, or empties it where `value` is `None`.
    pub fn write(&mut self, slot: Slot, value: Option<i64>)
        ensures
            final(self)@ == put(old(self)@, slot, value),
    {
        match slot.container {
            Container::World => match value {
                Some(v) => self.world.insert(slot.key, v),
                None => self.world.remove(slot.key),
            },
            Container::Resources => match value {
                Some(v) => self.resources.insert(slot.key, v),
                None => self.resources.remove(slot.key),
            },
        }
        assert(self@ =~= put(old(self)@, slot, value));
    }
}

} // verus!
