//! A map from ordered keys to state machines, changed by inserting or
//! deleting whole values.

use crate::list::Item;
use crate::order::{KeyOrder, Model};
use crate::sorted_map::SortedMap;
use crate::state_machine::{NeverConflict, StateMachine};
use vstd::prelude::*;

verus! {

/// A map whose transitions insert or delete one key.
pub struct StateMap<K: KeyOrder, V: StateMachine> {
    pub(crate) inner: SortedMap<K, Item<V>>,
}

/// Stores `value` under `key`, or deletes `key` when there is no value.
pub struct MapTransition<K, V> {
    pub key: K,
    pub value: Option<V>,
}

impl<K: KeyOrder, V: StateMachine> View for MapTransition<K, V> {
    type V = (K::M, Option<V::V>);

    open spec fn view(&self) -> (K::M, Option<V::V>) {
        (
            self.key.model(),
            match self.value {
                Some(v) => Some(v@),
                None => None,
            },
        )
    }
}

impl<K: KeyOrder, V: StateMachine> View for StateMap<K, V> {
    type V = Map<K::M, V::V>;

    closed spec fn view(&self) -> Map<K::M, V::V> {
        self.inner.map()
    }
}

impl<K: KeyOrder, V: StateMachine> StateMap<K, V> {
    #[verifier::type_invariant]
    closed spec fn wf(&self) -> bool {
        self.inner.wf()
    }

    /// An empty map.
    pub fn new() -> (r: StateMap<K, V>)
        ensures
            r@ == Map::<K::M, V::V>::empty(),
    {
        StateMap { inner: SortedMap::new() }
    }

    /// The transition storing `value` under `key`.
    pub fn insert(&self, key: K, value: V) -> (r: MapTransition<K, V>)
        ensures
            r@ == (key.model(), Some(value@)),
    {
        MapTransition { key, value: Some(value) }
    }

    /// The transition deleting `key`.
    pub fn delete(&self, key: K) -> (r: MapTransition<K, V>)
        ensures
            r@ == (key.model(), None::<V::V>),
    {
        MapTransition { key, value: None }
    }

    /// The value under `key`.
    pub fn get(&self, key: &K) -> (r: Option<&V>)
        ensures
            match r {
                Some(v) => self@.contains_key(key.model()) && v@ == self@[key.model()],
                None => !self@.contains_key(key.model()),
            },
    {
        proof {
            use_type_invariant(self);
        }
        match self.inner.get(key) {
            Some(item) => Some(&item.0),
            None => None,
        }
    }

    /// The entries in increasing key order.
    pub fn iter(&self) -> (r: Vec<(&K, &V)>)
        ensures
            forall|i: int, j: int| 0 <= i < j < r@.len() ==> K::less(#[trigger] r@[i].0.model(), #[trigger] r@[j].0.model()),
            forall|i: int| 0 <= i < r@.len() ==> self@.contains_key((#[trigger] r@[i]).0.model())
                && r@[i].1@ == self@[r@[i].0.model()],
            forall|k: K::M| #[trigger] self@.contains_key(k) ==> exists|i: int| 0 <= i < r@.len() && (#[trigger] r@[i]).0.model() == k,
    {
        proof {
            use_type_invariant(self);
        }
        let ghost ps = self.inner.pairs();
        let mut r: Vec<(&K, &V)> = Vec::new();
        let mut i: usize = 0;
        while i < self.inner.entries.len()
            invariant
                ps == self.inner.pairs(),
                ps.len() == self.inner.entries@.len(),
                i <= ps.len(),
                r@.len() == i,
                forall|a: int| 0 <= a < i ==> (#[trigger] r@[a]).0.model() == ps[a].0 && r@[a].1@ == ps[a].1,
            decreases self.inner.entries.len() - i,
        {
            r.push((&self.inner.entries[i].0, &self.inner.entries[i].1.0));
            i = i + 1;
        }
        proof {
            assert forall|a: int, b: int| 0 <= a < b < r@.len() implies K::less(#[trigger] r@[a].0.model(), #[trigger] r@[b].0.model()) by {
                assert(K::less(ps[a].0, ps[b].0));
            }
            assert forall|a: int| 0 <= a < r@.len() implies self@.contains_key((#[trigger] r@[a]).0.model())
                && r@[a].1@ == self@[r@[a].0.model()] by {
                self.inner.lemma_map_at(a);
            }
            assert forall|k: K::M| #[trigger] self@.contains_key(k) implies exists|a: int| 0 <= a < r@.len() && (#[trigger] r@[a]).0.model() == k by {
                self.inner.lemma_map_contains(k);
                let a = choose|a: int| 0 <= a < ps.len() && (#[trigger] ps[a]).0 == k;
                assert(r@[a].0.model() == k);
            }
        }
        r
    }
}

impl<K: KeyOrder, V: StateMachine> StateMachine for StateMap<K, V> {
    type Transition = MapTransition<K, V>;
    type Conflict = NeverConflict;

    open spec fn next(state: Map<K::M, V::V>, transition: (K::M, Option<V::V>)) -> Result<Map<K::M, V::V>, NeverConflict> {
        Ok(
            match transition.1 {
                Some(v) => state.insert(transition.0, v),
                None => state.remove(transition.0),
            },
        )
    }

    fn apply(&self, transition: &MapTransition<K, V>) -> (r: Result<StateMap<K, V>, NeverConflict>) {
        proof {
            use_type_invariant(self);
        }
        let mut inner = self.inner.duplicate();
        match &transition.value {
            Some(v) => {
                inner.insert(transition.key.duplicate(), Item(v.copy_state()));
            },
            None => {
                inner.remove(&transition.key);
            },
        }
        Ok(StateMap { inner })
    }

    fn copy_transition(transition: &MapTransition<K, V>) -> (r: MapTransition<K, V>) {
        MapTransition {
            key: transition.key.duplicate(),
            value: match &transition.value {
                Some(v) => Some(v.copy_state()),
                None => None,
            },
        }
    }

    fn copy_state(&self) -> (r: StateMap<K, V>) {
        proof {
            use_type_invariant(self);
        }
        StateMap { inner: self.inner.duplicate() }
    }
}

/// An insert transition always applies, and afterwards the map holds the
/// inserted value under its key, whatever it held there before; a delete
/// transition leaves the key absent; and neither changes any other key.
pub proof fn lemma_map_transition_effect<K: KeyOrder, V: StateMachine>(
    m: Map<K::M, V::V>,
    key: K::M,
    value: Option<V::V>,
    other: K::M,
)
    requires
        other != key,
    ensures
        StateMap::<K, V>::next(m, (key, value)) is Ok,
        ({
            let after = StateMap::<K, V>::next(m, (key, value))->Ok_0;
            &&& match value {
                Some(v) => after.contains_key(key) && after[key] == v,
                None => !after.contains_key(key),
            }
            &&& after.contains_key(other) == m.contains_key(other)
            &&& m.contains_key(other) ==> after[other] == m[other]
        }),
{
}

impl<K: KeyOrder, V: StateMachine> Default for StateMap<K, V> {
    fn default() -> (r: StateMap<K, V>)
        ensures
            r@ == Map::<K::M, V::V>::empty(),
    {
        StateMap::new()
    }
}

} // verus!
