//! A simpler layered store: each layer maps a prefix to the values written
//! under it, where a deletion is written as a missing value. There is no
//! deletion of whole prefixes.

use crate::listener::{alerted, listened, ListenerMap};
use crate::order::{lemma_bytes_model, Model};
use crate::sorted_map::{entry_models, pairs_to_map, SortedMap};
use vstd::prelude::*;

verus! {

broadcast use {lemma_bytes_model, vstd::seq_lib::group_seq_properties};

/// The entries under one prefix: each key holds a value, or `None` for a
/// deletion.
pub type TreeEntries = Map<Seq<u8>, Option<Seq<u8>>>;

/// What a tree layer holds: the entries under each prefix it has written.
pub type TreeLayerModel = Map<Seq<Seq<u8>>, TreeEntries>;

/// The value visible under `prefix` and `key`: what the topmost layer that
/// holds the key under the prefix says.
pub open spec fn tree_lookup(layers: Seq<TreeLayerModel>, prefix: Seq<Seq<u8>>, key: Seq<u8>) -> Option<Seq<u8>>
    decreases layers.len(),
{
    if layers.len() == 0 {
        None
    } else if layers.last().contains_key(prefix) && layers.last()[prefix].contains_key(key) {
        layers.last()[prefix][key]
    } else {
        tree_lookup(layers.drop_last(), prefix, key)
    }
}

/// The entries of `prefix` in `l`, empty if it holds none.
pub open spec fn tree_entries_or_empty(l: TreeLayerModel, prefix: Seq<Seq<u8>>) -> TreeEntries {
    if l.contains_key(prefix) {
        l[prefix]
    } else {
        Map::empty()
    }
}

/// Layer `next` with layer `top` folded into it.
pub open spec fn tree_combined(next: TreeLayerModel, top: TreeLayerModel) -> TreeLayerModel {
    Map::new(
        |p: Seq<Seq<u8>>| next.contains_key(p) || top.contains_key(p),
        |p: Seq<Seq<u8>>| if top.contains_key(p) {
            tree_entries_or_empty(next, p).union_prefer_right(top[p])
        } else {
            next[p]
        },
    )
}

/// The layers after `combine_down`: the top folded into the one below; a
/// lone layer is dropped.
pub open spec fn tree_combine_down(layers: Seq<TreeLayerModel>) -> Seq<TreeLayerModel> {
    if layers.len() == 0 {
        layers
    } else if layers.len() == 1 {
        Seq::empty()
    } else {
        layers.drop_last().update(layers.len() - 2, tree_combined(layers[layers.len() - 2], layers.last()))
    }
}

/// The prefixes with at least one entry, each with its entries in key
/// order, in prefix order.
pub open spec fn nonempty_entries(
    ps: Seq<(Seq<Seq<u8>>, Seq<(Seq<u8>, Option<Seq<u8>>)>)>,
) -> Seq<(Seq<Seq<u8>>, Seq<(Seq<u8>, Option<Seq<u8>>)>)>
    decreases ps.len(),
{
    if ps.len() == 0 {
        Seq::empty()
    } else if ps.last().1.len() > 0 {
        nonempty_entries(ps.drop_last()).push(ps.last())
    } else {
        nonempty_entries(ps.drop_last())
    }
}

/// A value written under `prefix` and `key` in the top layer is what is
/// read back there; every other place reads as before.
pub proof fn lemma_tree_lookup_after_write(
    layers: Seq<TreeLayerModel>,
    prefix: Seq<Seq<u8>>,
    key: Seq<u8>,
    value: Option<Seq<u8>>,
    p2: Seq<Seq<u8>>,
    k2: Seq<u8>,
)
    requires
        layers.len() > 0,
    ensures
        ({
            let after = layers.update(
                layers.len() - 1,
                layers.last().insert(prefix, tree_entries_or_empty(layers.last(), prefix).insert(key, value)),
            );
            &&& tree_lookup(after, prefix, key) == value
            &&& (p2 != prefix || k2 != key) ==> tree_lookup(after, p2, k2) == tree_lookup(layers, p2, k2)
        }),
{
    let after = layers.update(
        layers.len() - 1,
        layers.last().insert(prefix, tree_entries_or_empty(layers.last(), prefix).insert(key, value)),
    );
    assert(after.drop_last() =~= layers.drop_last());
}

/// Folding the top layer into the one below reads the same everywhere.
pub proof fn lemma_tree_combine_down_reads(layers: Seq<TreeLayerModel>, prefix: Seq<Seq<u8>>, key: Seq<u8>)
    requires
        layers.len() >= 2,
    ensures
        tree_lookup(tree_combine_down(layers), prefix, key) == tree_lookup(layers, prefix, key),
{
    let n = layers.len();
    let after = tree_combine_down(layers);
    let below = layers.drop_last();
    assert(after.drop_last() =~= below.drop_last());
    assert(below.last() == layers[n - 2]);
    let c = tree_combined(layers[n - 2], layers.last());
    assert(after.last() == c);
    let top = layers.last();
    let nx = layers[n - 2];
    assert(tree_lookup(layers, prefix, key) == if top.contains_key(prefix) && top[prefix].contains_key(key) {
        top[prefix][key]
    } else {
        tree_lookup(below, prefix, key)
    });
    assert(tree_lookup(below, prefix, key) == if nx.contains_key(prefix) && nx[prefix].contains_key(key) {
        nx[prefix][key]
    } else {
        tree_lookup(below.drop_last(), prefix, key)
    });
    assert(tree_lookup(after, prefix, key) == if c.contains_key(prefix) && c[prefix].contains_key(key) {
        c[prefix][key]
    } else {
        tree_lookup(after.drop_last(), prefix, key)
    });
    if top.contains_key(prefix) {
        assert(c[prefix] == tree_entries_or_empty(nx, prefix).union_prefer_right(top[prefix]));
    } else if nx.contains_key(prefix) {
        assert(c[prefix] == nx[prefix]);
    }
}

/// A change to the entries under one prefix.
#[derive(Debug)]
pub struct TreeMutation {
    pub prefix: Vec<Vec<u8>>,
    pub entries: Vec<(Vec<u8>, Option<Vec<u8>>)>,
}

impl TreeMutation {
    pub open spec fn model(&self) -> (Seq<Seq<u8>>, Seq<(Seq<u8>, Option<Seq<u8>>)>) {
        (self.prefix.model(), entry_models(self.entries@))
    }
}

/// Layer `l` after applying the mutations in order.
pub open spec fn tree_mutated(l: TreeLayerModel, ms: Seq<(Seq<Seq<u8>>, Seq<(Seq<u8>, Option<Seq<u8>>)>)>) -> TreeLayerModel
    decreases ms.len(),
{
    if ms.len() == 0 {
        l
    } else {
        let before = tree_mutated(l, ms.drop_last());
        let p = ms.last().0;
        before.insert(p, tree_entries_or_empty(before, p).union_prefer_right(pairs_to_map(ms.last().1)))
    }
}

/// What layer `l` says of `key` under `prefix`: `Some` of the value or
/// deletion it holds there, `None` when it holds nothing there.
pub open spec fn tree_says(l: TreeLayerModel, prefix: Seq<Seq<u8>>, key: Seq<u8>) -> Option<Option<Seq<u8>>> {
    if l.contains_key(prefix) && l[prefix].contains_key(key) {
        Some(l[prefix][key])
    } else {
        None
    }
}

/// Some mutation of `ms` names `key` under `prefix`.
pub open spec fn tree_names(ms: Seq<(Seq<Seq<u8>>, Seq<(Seq<u8>, Option<Seq<u8>>)>)>, prefix: Seq<Seq<u8>>, key: Seq<u8>) -> bool {
    exists|i: int| 0 <= i < ms.len() && (#[trigger] ms[i]).0 == prefix && pairs_to_map(ms[i].1).contains_key(key)
}

/// Mutations touch only the keys they name: a key that no mutation names
/// under a prefix keeps what the layer said of it, so the other keys a
/// prefix held stay.
pub proof fn lemma_tree_mutated_keeps_unnamed(
    l: TreeLayerModel,
    ms: Seq<(Seq<Seq<u8>>, Seq<(Seq<u8>, Option<Seq<u8>>)>)>,
    prefix: Seq<Seq<u8>>,
    key: Seq<u8>,
)
    requires
        !tree_names(ms, prefix, key),
    ensures
        tree_says(tree_mutated(l, ms), prefix, key) == tree_says(l, prefix, key),
    decreases ms.len(),
{
    if ms.len() > 0 {
        let n = ms.len() - 1;
        assert(!tree_names(ms.drop_last(), prefix, key)) by {
            if tree_names(ms.drop_last(), prefix, key) {
                let i = choose|i: int| 0 <= i < ms.drop_last().len() && (#[trigger] ms.drop_last()[i]).0 == prefix
                    && pairs_to_map(ms.drop_last()[i].1).contains_key(key);
                assert(ms[i] == ms.drop_last()[i]);
            }
        }
        lemma_tree_mutated_keeps_unnamed(l, ms.drop_last(), prefix, key);
        if ms[n].0 == prefix {
            assert(!pairs_to_map(ms[n].1).contains_key(key));
        }
    }
}

/// A key that the last mutation names under its prefix reads as the value
/// (or deletion) that mutation gives it, the last of its pairs for the key.
pub proof fn lemma_tree_mutated_last_wins(
    l: TreeLayerModel,
    ms: Seq<(Seq<Seq<u8>>, Seq<(Seq<u8>, Option<Seq<u8>>)>)>,
    key: Seq<u8>,
)
    requires
        ms.len() > 0,
        pairs_to_map(ms.last().1).contains_key(key),
    ensures
        tree_says(tree_mutated(l, ms), ms.last().0, key) == Some(pairs_to_map(ms.last().1)[key]),
{
}

/// Applying mutations in two parts is applying them all, the earlier part
/// first.
pub proof fn lemma_tree_mutated_in_order(
    l: TreeLayerModel,
    first: Seq<(Seq<Seq<u8>>, Seq<(Seq<u8>, Option<Seq<u8>>)>)>,
    rest: Seq<(Seq<Seq<u8>>, Seq<(Seq<u8>, Option<Seq<u8>>)>)>,
)
    ensures
        tree_mutated(l, first + rest) == tree_mutated(tree_mutated(l, first), rest),
    decreases rest.len(),
{
    if rest.len() == 0 {
        assert(first + rest =~= first);
    } else {
        lemma_tree_mutated_in_order(l, first, rest.drop_last());
        assert((first + rest).drop_last() =~= first + rest.drop_last());
        assert((first + rest).last() == rest.last());
    }
}

/// After `mutate`, every place that no mutation names reads as before.
pub proof fn lemma_tree_mutate_reads(
    layers: Seq<TreeLayerModel>,
    ms: Seq<(Seq<Seq<u8>>, Seq<(Seq<u8>, Option<Seq<u8>>)>)>,
    prefix: Seq<Seq<u8>>,
    key: Seq<u8>,
)
    requires
        layers.len() > 0,
        !tree_names(ms, prefix, key),
    ensures
        tree_lookup(layers.update(layers.len() - 1, tree_mutated(layers.last(), ms)), prefix, key) == tree_lookup(layers, prefix, key),
{
    let after = layers.update(layers.len() - 1, tree_mutated(layers.last(), ms));
    lemma_tree_mutated_keeps_unnamed(layers.last(), ms, prefix, key);
    assert(after.drop_last() =~= layers.drop_last());
    assert(after.last() == tree_mutated(layers.last(), ms));
}

/// One layer: the entries under each prefix it has written.
#[derive(Debug)]
pub struct TreeMapLayer(pub SortedMap<Vec<Vec<u8>>, SortedMap<Vec<u8>, Option<Vec<u8>>>>);

impl TreeMapLayer {
    pub open spec fn wf(&self) -> bool {
        &&& self.0.wf()
        &&& forall|i: int| 0 <= i < self.0.entries@.len() ==> (#[trigger] self.0.entries@[i]).1.wf()
    }

    pub open spec fn model(&self) -> TreeLayerModel {
        self.0.map().map_values(|ps: Seq<(Seq<u8>, Option<Seq<u8>>)>| pairs_to_map(ps))
    }

    /// An empty layer.
    pub fn new() -> (r: TreeMapLayer)
        ensures
            r.wf(),
            r.model() == Map::<Seq<Seq<u8>>, TreeEntries>::empty(),
    {
        let r = TreeMapLayer(SortedMap::new());
        assert(r.model() =~= Map::<Seq<Seq<u8>>, TreeEntries>::empty());
        r
    }

    /// A copy of the entries under `prefix`, empty if there are none.
    fn entries_of(&self, prefix: &Vec<Vec<u8>>) -> (r: SortedMap<Vec<u8>, Option<Vec<u8>>>)
        requires
            self.wf(),
        ensures
            r.wf(),
            r.map() == tree_entries_or_empty(self.model(), prefix.model()),
    {
        match self.0.find(prefix) {
            Ok(i) => {
                proof {
                    self.0.lemma_map_at(i as int);
                }
                assert(self.0.entries@[i as int].1.wf());
                self.0.entries[i].1.duplicate()
            },
            Err(_) => {
                proof {
                    self.0.lemma_map_contains(prefix.model());
                    if self.0.map().contains_key(prefix.model()) {
                        let j = choose|j: int| 0 <= j < self.0.pairs().len() && (#[trigger] self.0.pairs()[j]).0 == prefix.model();
                        <Vec<Vec<u8>> as crate::order::KeyOrder>::lemma_irreflexive(prefix.model());
                    }
                }
                SortedMap::new()
            },
        }
    }

    /// Makes `entries` the whole of what this layer holds under `prefix`.
    fn put(&mut self, prefix: Vec<Vec<u8>>, entries: SortedMap<Vec<u8>, Option<Vec<u8>>>)
        requires
            old(self).wf(),
            entries.wf(),
        ensures
            final(self).wf(),
            final(self).model() == old(self).model().insert(prefix.model(), entries.map()),
    {
        let ghost kv = (prefix, entries);
        let ghost before = self.0.map();
        self.0.insert(prefix, entries);
        proof {
            assert forall|i: int| 0 <= i < self.0.entries@.len() implies (#[trigger] self.0.entries@[i]).1.wf() by {
                if self.0.entries@[i] != kv {
                    let j = choose|j: int| 0 <= j < old(self).0.entries@.len() && old(self).0.entries@[j] == self.0.entries@[i];
                    assert(old(self).0.entries@[j].1.wf());
                }
            }
            assert(self.model() =~= old(self).model().insert(kv.0.model(), kv.1.map()));
        }
    }

    /// The prefixes that hold at least one entry, in order.
    pub fn prefixes(&self) -> (r: Vec<Vec<Vec<u8>>>)
        requires
            self.wf(),
        ensures
            r.model() == nonempty_entries(self.0.pairs()).map_values(
                |e: (Seq<Seq<u8>>, Seq<(Seq<u8>, Option<Seq<u8>>)>)| e.0,
            ),
    {
        let ghost ps = self.0.pairs();
        let mut r: Vec<Vec<Vec<u8>>> = Vec::new();
        let mut i: usize = 0;
        assert(r.model() =~= nonempty_entries(ps.subrange(0, 0)).map_values(
            |e: (Seq<Seq<u8>>, Seq<(Seq<u8>, Option<Seq<u8>>)>)| e.0,
        ));
        while i < self.0.entries.len()
            invariant
                ps == self.0.pairs(),
                i <= ps.len(),
                ps.len() == self.0.entries@.len(),
                r.model() == nonempty_entries(ps.subrange(0, i as int)).map_values(
                    |e: (Seq<Seq<u8>>, Seq<(Seq<u8>, Option<Seq<u8>>)>)| e.0,
                ),
            decreases self.0.entries.len() - i,
        {
            let ghost sub = ps.subrange(0, i + 1);
            assert(sub.drop_last() =~= ps.subrange(0, i as int));
            assert(sub.last() == ps[i as int]);
            let ghost before = r.model();
            if self.0.entries[i].1.len() > 0 {
                r.push(self.0.entries[i].0.duplicate());
                assert(r.model() =~= before.push(ps[i as int].0));
            }
            assert(r.model() =~= nonempty_entries(sub).map_values(
                |e: (Seq<Seq<u8>>, Seq<(Seq<u8>, Option<Seq<u8>>)>)| e.0,
            ));
            i = i + 1;
        }
        assert(ps.subrange(0, i as int) =~= ps);
        r
    }
}

impl Default for TreeMapLayer {
    fn default() -> (r: TreeMapLayer)
        ensures
            r.wf(),
            r.model() == Map::<Seq<Seq<u8>>, TreeEntries>::empty(),
    {
        TreeMapLayer::new()
    }
}

/// The layers, bottom first, and the listeners.
#[derive(Debug)]
pub struct TreeMapInner {
    pub layers: Vec<TreeMapLayer>,
    pub listeners: ListenerMap,
}

impl Default for TreeMapInner {
    fn default() -> (r: TreeMapInner)
        ensures
            r.layers@.len() == 1,
            r.layers@[0].wf(),
            r.layers@[0].model() == Map::<Seq<Seq<u8>>, TreeEntries>::empty(),
            r.listeners.wf(),
            r.listeners.view() == Map::<Seq<Seq<u8>>, Seq<u64>>::empty(),
    {
        let mut layers: Vec<TreeMapLayer> = Vec::new();
        layers.push(TreeMapLayer::new());
        TreeMapInner { layers, listeners: ListenerMap::new() }
    }
}

/// A layered tree of values, with listeners.
#[derive(Debug)]
pub struct TreeMap {
    pub inner: TreeMapInner,
}

impl TreeMap {
    pub open spec fn wf(&self) -> bool {
        &&& forall|i: int| 0 <= i < self.inner.layers@.len() ==> (#[trigger] self.inner.layers@[i]).wf()
        &&& self.inner.listeners.wf()
    }

    /// The layers, bottom first.
    pub open spec fn model(&self) -> Seq<TreeLayerModel> {
        self.inner.layers@.map_values(|l: TreeMapLayer| l.model())
    }

    /// A tree with one empty layer and no listener.
    pub fn new() -> (r: TreeMap)
        ensures
            r.wf(),
            r.model() == seq![Map::<Seq<Seq<u8>>, TreeEntries>::empty()],
            r.inner.listeners.view() == Map::<Seq<Seq<u8>>, Seq<u64>>::empty(),
    {
        let r = TreeMap { inner: TreeMapInner::default() };
        assert(r.model() =~= seq![Map::<Seq<Seq<u8>>, TreeEntries>::empty()]);
        r
    }

    /// Adds an empty layer on top.
    pub fn push_overlay(&mut self)
        requires
            old(self).wf(),
        ensures
            final(self).wf(),
            final(self).model() == old(self).model().push(Map::<Seq<Seq<u8>>, TreeEntries>::empty()),
            final(self).inner.listeners == old(self).inner.listeners,
    {
        let ghost before = self.model();
        self.inner.layers.push(TreeMapLayer::new());
        assert(self.model() =~= before.push(Map::<Seq<Seq<u8>>, TreeEntries>::empty()));
    }

    /// Drops the top layer, if there is one.
    pub fn pop_overlay(&mut self)
        requires
            old(self).wf(),
        ensures
            final(self).wf(),
            final(self).model() == if old(self).model().len() == 0 {
                old(self).model()
            } else {
                old(self).model().drop_last()
            },
            final(self).inner.listeners == old(self).inner.listeners,
    {
        let ghost before = self.model();
        let _ = self.inner.layers.pop();
        assert(self.model() =~= if before.len() == 0 { before } else { before.drop_last() });
    }

    /// The top layer's entries as mutations, one per prefix that holds any,
    /// in prefix order.
    pub fn top_layer_mutations(&self) -> (r: Vec<TreeMutation>)
        requires
            self.wf(),
            self.inner.layers@.len() > 0,
        ensures
            r@.map_values(|m: TreeMutation| m.model()) == nonempty_entries(self.inner.layers@.last().0.pairs()),
    {
        let n = self.inner.layers.len();
        let ghost ps = self.inner.layers@[n - 1].0.pairs();
        assert(self.inner.layers@[n - 1].wf());
        let mut r: Vec<TreeMutation> = Vec::new();
        let mut i: usize = 0;
        assert(r@.map_values(|m: TreeMutation| m.model()) =~= nonempty_entries(ps.subrange(0, 0)));
        while i < self.inner.layers[n - 1].0.entries.len()
            invariant
                n == self.inner.layers@.len(),
                n > 0,
                ps == self.inner.layers@[n - 1].0.pairs(),
                ps.len() == self.inner.layers@[n - 1].0.entries@.len(),
                i <= ps.len(),
                r@.map_values(|m: TreeMutation| m.model()) == nonempty_entries(ps.subrange(0, i as int)),
            decreases self.inner.layers@[n - 1].0.entries@.len() - i,
        {
            let ghost sub = ps.subrange(0, i + 1);
            assert(sub.drop_last() =~= ps.subrange(0, i as int));
            assert(sub.last() == ps[i as int]);
            let ghost before = r@.map_values(|m: TreeMutation| m.model());
            let children = &self.inner.layers[n - 1].0.entries[i].1;
            if children.entries.len() > 0 {
                let mut entries: Vec<(Vec<u8>, Option<Vec<u8>>)> = Vec::new();
                let mut j: usize = 0;
                while j < children.entries.len()
                    invariant
                        j <= children.entries@.len(),
                        entries@.len() == j,
                        forall|a: int| 0 <= a < j ==> (#[trigger] entries@[a]).0.model() == children.entries@[a].0.model()
                            && entries@[a].1.model() == children.entries@[a].1.model(),
                    decreases children.entries@.len() - j,
                {
                    entries.push((children.entries[j].0.duplicate(), children.entries[j].1.duplicate()));
                    j = j + 1;
                }
                let m = TreeMutation { prefix: self.inner.layers[n - 1].0.entries[i].0.duplicate(), entries };
                assert(entry_models(m.entries@) =~= children.pairs());
                r.push(m);
                assert(r@.map_values(|m: TreeMutation| m.model()) =~= before.push(ps[i as int]));
            }
            assert(r@.map_values(|m: TreeMutation| m.model()) =~= nonempty_entries(sub));
            i = i + 1;
        }
        assert(ps.subrange(0, i as int) =~= ps);
        r
    }

    /// Hands the listeners of `prefix` their answers (see `ListenerMap::alert`).
    pub fn alert(&mut self, prefix: &Vec<Vec<u8>>, keep: &Vec<bool>)
        requires
            old(self).wf(),
            old(self).inner.listeners.view().contains_key(prefix.model()) ==> keep@.len()
                == old(self).inner.listeners.view()[prefix.model()].len(),
        ensures
            final(self).wf(),
            final(self).inner.layers == old(self).inner.layers,
            final(self).inner.listeners.view() == alerted(old(self).inner.listeners.view(), prefix.model(), keep@),
    {
        self.inner.listeners.alert(prefix, keep);
    }

    /// Folds the top layer into the one below; a lone layer is dropped.
    pub fn combine_down(&mut self)
        requires
            old(self).wf(),
        ensures
            final(self).wf(),
            final(self).model() == tree_combine_down(old(self).model()),
            final(self).inner.listeners == old(self).inner.listeners,
    {
        let ghost before = self.model();
        let top = match self.inner.layers.pop() {
            Some(t) => t,
            None => {
                return;
            },
        };
        assert(self.inner.layers@ =~= old(self).inner.layers@.drop_last());
        assert(top.wf());
        let mut next = match self.inner.layers.pop() {
            Some(l) => l,
            None => {
                assert(self.model() =~= Seq::<TreeLayerModel>::empty());
                return;
            },
        };
        let ghost below = self.inner.layers@;
        assert(below =~= old(self).inner.layers@.drop_last().drop_last());
        assert(next.wf());
        let ghost n0 = next.model();
        let ghost t0 = top.model();
        let ghost tps = top.0.pairs();
        let mut j: usize = 0;
        while j < top.0.entries.len()
            invariant
                top.wf(),
                next.wf(),
                t0 == top.model(),
                tps == top.0.pairs(),
                tps.len() == top.0.entries@.len(),
                j <= tps.len(),
                next.model() == Map::new(
                    |p: Seq<Seq<u8>>| n0.contains_key(p) || exists|b: int| 0 <= b < j && (#[trigger] tps[b]).0 == p,
                    |p: Seq<Seq<u8>>| if exists|b: int| 0 <= b < j && (#[trigger] tps[b]).0 == p {
                        tree_entries_or_empty(n0, p).union_prefer_right(t0[p])
                    } else {
                        n0[p]
                    },
                ),
            decreases top.0.entries.len() - j,
        {
            let prefix = &top.0.entries[j].0;
            let ghost pm = prefix.model();
            proof {
                top.0.lemma_map_at(j as int);
                assert(tps[j as int].0 == pm);
                assert(top.0.entries@[j as int].1.wf());
            }
            let mut merged = next.entries_of(prefix);
            merged.extend_from(&top.0.entries[j].1);
            next.put(prefix.duplicate(), merged);
            proof {
                assert(t0[pm] == pairs_to_map(tps[j as int].1));
                assert(top.0.entries@[j as int].1.map() == pairs_to_map(tps[j as int].1));
                let target = Map::new(
                    |p: Seq<Seq<u8>>| n0.contains_key(p) || exists|b: int| 0 <= b < j + 1 && (#[trigger] tps[b]).0 == p,
                    |p: Seq<Seq<u8>>| if exists|b: int| 0 <= b < j + 1 && (#[trigger] tps[b]).0 == p {
                        tree_entries_or_empty(n0, p).union_prefer_right(t0[p])
                    } else {
                        n0[p]
                    },
                );
                assert forall|q: Seq<Seq<u8>>| #[trigger] next.model().contains_key(q) == target.contains_key(q)
                    && (next.model().contains_key(q) ==> next.model()[q] == target[q]) by {
                    if q != pm {
                        if exists|b: int| 0 <= b < j + 1 && (#[trigger] tps[b]).0 == q {
                            let b = choose|b: int| 0 <= b < j + 1 && (#[trigger] tps[b]).0 == q;
                            assert(b != j);
                        }
                    } else {
                        assert(tps[j as int].0 == q);
                    }
                }
                assert(next.model() =~= target);
            }
            j = j + 1;
        }
        proof {
            assert forall|q: Seq<Seq<u8>>| (exists|b: int| 0 <= b < j && (#[trigger] tps[b]).0 == q) == t0.contains_key(q) by {
                top.0.lemma_map_contains(q);
            }
            assert(next.model() =~= tree_combined(n0, t0));
        }
        self.inner.layers.push(next);
        proof {
            assert(before.drop_last().drop_last() =~= below.map_values(|l: TreeMapLayer| l.model()));
            assert(self.model() =~= tree_combine_down(before));
        }
    }

    /// The value visible under `prefix` and `key`.
    pub fn get(&self, prefix: &Vec<Vec<u8>>, key: &Vec<u8>) -> (r: Option<Vec<u8>>)
        requires
            self.wf(),
        ensures
            r.model() == tree_lookup(self.model(), prefix.model(), key@),
    {
        let ghost m = self.model();
        let mut i: usize = self.inner.layers.len();
        assert(m.subrange(0, i as int) =~= m);
        while i > 0
            invariant
                i <= self.inner.layers@.len(),
                m == self.model(),
                self.wf(),
                tree_lookup(m, prefix.model(), key@) == tree_lookup(m.subrange(0, i as int), prefix.model(), key@),
            decreases i,
        {
            let ghost sub = m.subrange(0, i as int);
            assert(sub.last() == self.inner.layers@[i - 1].model());
            assert(sub.drop_last() =~= m.subrange(0, i - 1));
            assert(self.inner.layers@[i - 1].wf());
            let children = self.inner.layers[i - 1].entries_of(prefix);
            match children.get(key) {
                Some(value) => {
                    return value.duplicate();
                },
                None => {},
            }
            i = i - 1;
        }
        None
    }

    /// Applies the mutations in order to the top layer: each one's entries
    /// are stored under its prefix, replacing what was there for the same
    /// keys.
    pub fn mutate(&mut self, mutations: &Vec<TreeMutation>)
        requires
            old(self).wf(),
            old(self).inner.layers@.len() > 0,
        ensures
            final(self).wf(),
            final(self).model() == old(self).model().update(
                old(self).model().len() - 1,
                tree_mutated(old(self).model().last(), mutations@.map_values(|m: TreeMutation| m.model())),
            ),
            final(self).inner.listeners == old(self).inner.listeners,
    {
        let ghost before = self.model();
        let ghost ms = mutations@.map_values(|m: TreeMutation| m.model());
        let mut top = self.inner.layers.pop().unwrap();
        assert(top.wf());
        let ghost t0 = top.model();
        let mut i: usize = 0;
        assert(ms.subrange(0, 0) =~= Seq::<(Seq<Seq<u8>>, Seq<(Seq<u8>, Option<Seq<u8>>)>)>::empty());
        while i < mutations.len()
            invariant
                top.wf(),
                i <= mutations@.len(),
                ms == mutations@.map_values(|m: TreeMutation| m.model()),
                top.model() == tree_mutated(t0, ms.subrange(0, i as int)),
            decreases mutations.len() - i,
        {
            let mutation = &mutations[i];
            let ghost l0 = top.model();
            let ghost pm = mutation.prefix.model();
            let mut map = top.entries_of(&mutation.prefix);
            let ghost start = map.map();
            let ghost es = entry_models(mutation.entries@);
            let mut k: usize = 0;
            assert(es.subrange(0, 0) =~= Seq::<(Seq<u8>, Option<Seq<u8>>)>::empty());
            while k < mutation.entries.len()
                invariant
                    map.wf(),
                    k <= mutation.entries@.len(),
                    es == entry_models(mutation.entries@),
                    es.len() == mutation.entries@.len(),
                    map.map() == start.union_prefer_right(pairs_to_map(es.subrange(0, k as int))),
                decreases mutation.entries.len() - k,
            {
                let key = mutation.entries[k].0.duplicate();
                let value = mutation.entries[k].1.duplicate();
                map.insert(key, value);
                proof {
                    let sub = es.subrange(0, k + 1);
                    assert(sub.drop_last() =~= es.subrange(0, k as int));
                    assert(sub.last() == es[k as int]);
                    assert(map.map() =~= start.union_prefer_right(pairs_to_map(sub)));
                }
                k = k + 1;
            }
            assert(es.subrange(0, k as int) =~= es);
            top.put(mutation.prefix.duplicate(), map);
            proof {
                let sub = ms.subrange(0, i + 1);
                assert(sub.drop_last() =~= ms.subrange(0, i as int));
                assert(sub.last() == ms[i as int]);
                assert(ms[i as int] == (pm, es));
                assert(top.model() =~= tree_mutated(t0, sub));
            }
            i = i + 1;
        }
        assert(ms.subrange(0, i as int) =~= ms);
        self.inner.layers.push(top);
        assert(self.model() =~= before.update(before.len() - 1, tree_mutated(before.last(), ms)));
    }
}

impl Default for TreeMap {
    fn default() -> (r: TreeMap)
        ensures
            r.wf(),
            r.model() == seq![Map::<Seq<Seq<u8>>, TreeEntries>::empty()],
    {
        TreeMap::new()
    }
}

/// A place in a tree: the path of prefix parts that leads to it.
#[derive(Debug)]
pub struct TreeMapRef {
    pub prefix: Vec<Vec<u8>>,
}

impl Clone for TreeMapRef {
    fn clone(&self) -> (r: TreeMapRef)
        ensures
            r.prefix.model() == self.prefix.model(),
    {
        TreeMapRef { prefix: self.prefix.duplicate() }
    }
}

impl TreeMapRef {
    /// Registers listener `listener` under this prefix.
    pub fn listen(&self, map: &mut TreeMap, listener: u64)
        requires
            old(map).wf(),
        ensures
            final(map).wf(),
            final(map).inner.layers == old(map).inner.layers,
            final(map).inner.listeners.view() == listened(old(map).inner.listeners.view(), self.prefix.model(), listener),
    {
        map.inner.listeners.listen(self.prefix.duplicate(), listener);
    }

    /// The root of a tree.
    pub fn new_root(map: &TreeMap) -> (r: TreeMapRef)
        ensures
            r.prefix.model() == Seq::<Seq<u8>>::empty(),
    {
        let prefix: Vec<Vec<u8>> = Vec::new();
        assert(prefix.model() =~= Seq::<Seq<u8>>::empty());
        TreeMapRef { prefix }
    }

    /// The value visible under `key` here.
    pub fn get(&self, map: &TreeMap, key: &Vec<u8>) -> (r: Option<Vec<u8>>)
        requires
            map.wf(),
        ensures
            r.model() == tree_lookup(map.model(), self.prefix.model(), key@),
    {
        map.get(&self.prefix, key)
    }

    /// Writes `value` (a value, or `None` for a deletion) under `key` here,
    /// in the top layer.
    fn write(&self, map: &mut TreeMap, key: Vec<u8>, value: Option<Vec<u8>>)
        requires
            old(map).wf(),
            old(map).inner.layers@.len() > 0,
        ensures
            final(map).wf(),
            final(map).model() == old(map).model().update(
                old(map).model().len() - 1,
                old(map).model().last().insert(
                    self.prefix.model(),
                    tree_entries_or_empty(old(map).model().last(), self.prefix.model()).insert(key@, value.model()),
                ),
            ),
            final(map).inner.listeners == old(map).inner.listeners,
    {
        let ghost before = map.model();
        let ghost km = key@;
        let ghost vm = value.model();
        let mut top = map.inner.layers.pop().unwrap();
        assert(top.wf());
        let mut entries = top.entries_of(&self.prefix);
        entries.insert(key, value);
        top.put(self.prefix.duplicate(), entries);
        map.inner.layers.push(top);
        assert(map.model() =~= before.update(
            before.len() - 1,
            before.last().insert(self.prefix.model(), tree_entries_or_empty(before.last(), self.prefix.model()).insert(km, vm)),
        ));
    }

    /// Stores `value` under `key` here, in the top layer.
    pub fn set(&mut self, map: &mut TreeMap, key: Vec<u8>, value: Vec<u8>)
        requires
            old(map).wf(),
            old(map).inner.layers@.len() > 0,
        ensures
            final(self).prefix == old(self).prefix,
            final(map).wf(),
            final(map).model() == old(map).model().update(
                old(map).model().len() - 1,
                old(map).model().last().insert(
                    old(self).prefix.model(),
                    tree_entries_or_empty(old(map).model().last(), old(self).prefix.model()).insert(key@, Some(value@)),
                ),
            ),
            final(map).inner.listeners == old(map).inner.listeners,
    {
        self.write(map, key, Some(value));
    }

    /// Deletes `key` here, in the top layer.
    pub fn delete(&mut self, map: &mut TreeMap, key: Vec<u8>)
        requires
            old(map).wf(),
            old(map).inner.layers@.len() > 0,
        ensures
            final(self).prefix == old(self).prefix,
            final(map).wf(),
            final(map).model() == old(map).model().update(
                old(map).model().len() - 1,
                old(map).model().last().insert(
                    old(self).prefix.model(),
                    tree_entries_or_empty(old(map).model().last(), old(self).prefix.model()).insert(key@, None),
                ),
            ),
            final(map).inner.listeners == old(map).inner.listeners,
    {
        self.write(map, key, None);
    }

    /// The place of child `part`.
    pub fn child(&self, part: &[u8]) -> (r: TreeMapRef)
        ensures
            r.prefix.model() == self.prefix.model().push(part@),
    {
        let mut prefix = self.prefix.duplicate();
        let ghost pm = prefix.model();
        let p = vstd::slice::slice_to_vec(part);
        prefix.push(p);
        assert(prefix.model() =~= pm.push(part@));
        TreeMapRef { prefix }
    }
}

} // verus!
