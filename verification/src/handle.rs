//! Handles: a view of the store at one prefix, through which values are
//! read and written and children are made and deleted.

use crate::iter::{merged, StoreIterator};
use crate::listener::listened;
use crate::order::{lemma_bytes_model, KeyOrder, Model};
use crate::prefix_map::{PrefixMap, PrefixMapModel, PrefixMapValue};
use crate::sorted_map::{strictly_sorted, SortedMap};
use crate::store::{
    deleted_all, ensured, lookup, mentioned_under, with_top, written,
    LayerModel, Store,
};
use vstd::prelude::*;

verus! {

broadcast use lemma_bytes_model;

/// The children maps of `prefix` that reads under it can reach, bottom
/// first: those above the topmost layer that deleted the prefix.
pub open spec fn reachable_maps(layers: Seq<LayerModel>, prefix: Seq<Seq<u8>>) -> Seq<Map<Seq<u8>, Option<Seq<u8>>>>
    decreases layers.len(),
{
    if layers.len() == 0 {
        Seq::empty()
    } else if layers.last().layer.contains_key(prefix) {
        match layers.last().layer[prefix] {
            PrefixMapModel::Children(c) => reachable_maps(layers.drop_last(), prefix).push(c),
            PrefixMapModel::Deleted => Seq::empty(),
        }
    } else {
        reachable_maps(layers.drop_last(), prefix)
    }
}

/// Merging the reachable maps of a prefix gives, for each key, exactly what
/// a read of that key gives.
pub proof fn lemma_reachable_maps(layers: Seq<LayerModel>, prefix: Seq<Seq<u8>>, key: Seq<u8>)
    ensures
        lookup(layers, prefix, key) == match merged(reachable_maps(layers, prefix)).get(key) {
            Some(x) => x,
            None => None,
        },
    decreases layers.len(),
{
    if layers.len() > 0 {
        lemma_reachable_maps(layers.drop_last(), prefix, key);
        if layers.last().layer.contains_key(prefix) {
            match layers.last().layer[prefix] {
                PrefixMapModel::Children(c) => {
                    let s = reachable_maps(layers.drop_last(), prefix);
                    assert(s.push(c).drop_last() =~= s);
                },
                PrefixMapModel::Deleted => {},
            }
        }
    }
}

/// A place in the store: the path of prefix parts that leads to it.
#[derive(Debug)]
pub struct StoreHandle {
    pub prefix: Vec<Vec<u8>>,
}

impl Clone for StoreHandle {
    fn clone(&self) -> (r: StoreHandle)
        ensures
            r.prefix.model() == self.prefix.model(),
    {
        StoreHandle { prefix: self.prefix.duplicate() }
    }
}

impl Store {
    /// A handle at the root of the store.
    pub fn handle(&self) -> (r: StoreHandle)
        ensures
            r.prefix.model() == Seq::<Seq<u8>>::empty(),
    {
        StoreHandle::new()
    }

    /// The children maps of `prefix` above the topmost layer that deleted
    /// it, bottom first.
    pub fn reachable_children(&self, prefix: &Vec<Vec<u8>>) -> (r: Vec<SortedMap<Vec<u8>, PrefixMapValue>>)
        requires
            self.wf(),
        ensures
            r@.map_values(|l: SortedMap<Vec<u8>, PrefixMapValue>| l.map()) == reachable_maps(self.model(), prefix.model()),
    {
        let ghost m = self.model();
        let ghost pm = prefix.model();
        let mut r: Vec<SortedMap<Vec<u8>, PrefixMapValue>> = Vec::new();
        let mut i: usize = 0;
        assert(r@.map_values(|l: SortedMap<Vec<u8>, PrefixMapValue>| l.map()) =~= reachable_maps(m.subrange(0, 0), pm));
        while i < self.inner.layers.len()
            invariant
                self.wf(),
                m == self.model(),
                pm == prefix.model(),
                i <= self.inner.layers@.len(),
                r@.map_values(|l: SortedMap<Vec<u8>, PrefixMapValue>| l.map()) == reachable_maps(m.subrange(0, i as int), pm),
            decreases self.inner.layers.len() - i,
        {
            let ghost sub = m.subrange(0, i + 1);
            assert(sub.drop_last() =~= m.subrange(0, i as int));
            assert(sub.last() == self.inner.layers@[i as int].model());
            assert(self.inner.layers@[i as int].wf());
            let ghost before = r@.map_values(|l: SortedMap<Vec<u8>, PrefixMapValue>| l.map());
            match self.inner.layers[i].entries_of(prefix) {
                Some(PrefixMap::Children(c)) => {
                    let ghost cm = c.map();
                    r.push(c);
                    assert(r@.map_values(|l: SortedMap<Vec<u8>, PrefixMapValue>| l.map()) =~= before.push(cm));
                },
                Some(PrefixMap::DeletedPrefixMap) => {
                    r = Vec::new();
                    assert(r@.map_values(|l: SortedMap<Vec<u8>, PrefixMapValue>| l.map()) =~= Seq::<Map<Seq<u8>, Option<Seq<u8>>>>::empty());
                },
                None => {},
            }
            i = i + 1;
        }
        assert(m.subrange(0, i as int) =~= m);
        r
    }
}

impl StoreHandle {
    /// A handle at the root.
    pub fn new() -> (r: StoreHandle)
        ensures
            r.prefix.model() == Seq::<Seq<u8>>::empty(),
    {
        let prefix: Vec<Vec<u8>> = Vec::new();
        assert(prefix.model() =~= Seq::<Seq<u8>>::empty());
        StoreHandle { prefix }
    }

    /// Registers listener `listener` to be alerted when this prefix changes.
    pub fn listen(&self, store: &mut Store, listener: u64)
        requires
            old(store).wf(),
        ensures
            final(store).wf(),
            final(store).model() == old(store).model(),
            final(store).inner.layers == old(store).inner.layers,
            final(store).inner.listeners.view() == listened(old(store).inner.listeners.view(), self.prefix.model(), listener),
    {
        let p = self.prefix.duplicate();
        store.inner.listeners.listen(p, listener);
    }

    /// The value visible under `key` at this prefix.
    pub fn get(&self, store: &Store, key: &Vec<u8>) -> (r: Option<Vec<u8>>)
        requires
            store.wf(),
        ensures
            r.model() == lookup(store.model(), self.prefix.model(), key@),
    {
        store.get(&self.prefix, key)
    }

    /// Stores `value` under `key` at this prefix, in the top layer.
    pub fn set(&mut self, store: &mut Store, key: Vec<u8>, value: Vec<u8>)
        requires
            old(store).wf(),
            old(store).model().len() > 0,
        ensures
            final(store).wf(),
            final(store).model() == with_top(
                old(store).model(),
                written(old(store).model().last(), old(self).prefix.model(), key@, Some(value@)),
            ),
            final(store).inner.listeners == old(store).inner.listeners,
            final(self).prefix == old(self).prefix,
    {
        store.write(&self.prefix, key, PrefixMapValue::Value(value));
    }

    /// Deletes `key` at this prefix, in the top layer.
    pub fn delete(&mut self, store: &mut Store, key: Vec<u8>)
        requires
            old(store).wf(),
            old(store).model().len() > 0,
        ensures
            final(store).wf(),
            final(store).model() == with_top(
                old(store).model(),
                written(old(store).model().last(), old(self).prefix.model(), key@, None),
            ),
            final(store).inner.listeners == old(store).inner.listeners,
            final(self).prefix == old(self).prefix,
    {
        store.write(&self.prefix, key, PrefixMapValue::Deleted);
    }

    /// The handle of child `part`, which is made to exist in the top layer.
    pub fn child(&mut self, store: &mut Store, part: Vec<u8>) -> (r: StoreHandle)
        requires
            old(store).wf(),
            old(store).model().len() > 0,
        ensures
            r.prefix.model() == old(self).prefix.model().push(part@),
            final(self).prefix == old(self).prefix,
            final(store).wf(),
            final(store).model() == ensured(old(store).model(), r.prefix.model()),
            final(store).inner.listeners == old(store).inner.listeners,
    {
        let mut prefix = self.prefix.duplicate();
        let ghost pm = prefix.model();
        let ghost partm = part@;
        prefix.push(part);
        assert(prefix.model() =~= pm.push(partm));
        store.ensure(&prefix);
        StoreHandle { prefix }
    }

    /// Deletes child `part` and every prefix under it, in the top layer.
    pub fn delete_child(&mut self, store: &mut Store, part: Vec<u8>)
        requires
            old(store).wf(),
            old(store).model().len() > 0,
        ensures
            final(store).wf(),
            final(store).model() == with_top(
                old(store).model(),
                deleted_all(
                    old(store).model().last(),
                    mentioned_under(old(store).model(), old(self).prefix.model().push(part@)),
                ),
            ),
            final(store).inner.listeners == old(store).inner.listeners,
            final(self).prefix == old(self).prefix,
    {
        let mut prefix = self.prefix.duplicate();
        let ghost pm = prefix.model();
        let ghost partm = part@;
        prefix.push(part);
        assert(prefix.model() =~= pm.push(partm));
        store.delete_under(&prefix);
    }

    /// The values visible at this prefix, in increasing key order.
    pub fn iter(&self, store: &Store) -> (r: StoreIterator)
        requires
            store.wf(),
        ensures
            strictly_sorted::<Vec<u8>, Seq<u8>>(r.view()),
            forall|k: Seq<u8>, v: Seq<u8>| r.view().contains((k, v)) <==> lookup(store.model(), self.prefix.model(), k) == Some(v),
    {
        let maps = store.reachable_children(&self.prefix);
        let r = StoreIterator::new(&maps);
        proof {
            assert forall|k: Seq<u8>, v: Seq<u8>| r.view().contains((k, v)) <==> lookup(store.model(), self.prefix.model(), k) == Some(v) by {
                lemma_reachable_maps(store.model(), self.prefix.model(), k);
            }
        }
        r
    }
}

} // verus!
