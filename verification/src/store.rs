//! The synchronizable store: a stack of layers, each mapping prefixes to the
//! entries written under them. Reads look through the layers from the top.

use crate::listener::{alerted, lemma_retained_contains, listened, ListenerMap};
use crate::order::{lemma_bytes_model, KeyOrder, Model, Order};
use crate::prefix_map::{prefix_map_get, prefix_map_insert, PrefixMap, PrefixMapModel, PrefixMapValue};
use crate::sorted_map::{lemma_pairs_to_map_contains, pairs_to_map, SortedMap};
use vstd::prelude::*;

verus! {

broadcast use {lemma_bytes_model, vstd::seq_lib::group_seq_properties};

/// What one layer holds: the entries under each prefix it has written, and
/// the prefixes it has changed since listeners were last alerted.
pub struct LayerModel {
    pub layer: Map<Seq<Seq<u8>>, PrefixMapModel>,
    pub dirty: Set<Seq<Seq<u8>>>,
}

/// A layer that holds nothing.
pub open spec fn empty_layer() -> LayerModel {
    LayerModel { layer: Map::empty(), dirty: Set::empty() }
}

/// What `layer` says of `key` under `prefix`: `Some(Some(v))` a value,
/// `Some(None)` a deletion, `None` nothing.
pub open spec fn layer_says(l: LayerModel, prefix: Seq<Seq<u8>>, key: Seq<u8>) -> Option<Option<Seq<u8>>> {
    if l.layer.contains_key(prefix) {
        prefix_map_get(l.layer[prefix], key)
    } else {
        None
    }
}

/// The value visible under `prefix` and `key`: what the topmost layer that
/// says anything of it says.
pub open spec fn lookup(layers: Seq<LayerModel>, prefix: Seq<Seq<u8>>, key: Seq<u8>) -> Option<Seq<u8>>
    decreases layers.len(),
{
    if layers.len() == 0 {
        None
    } else {
        match layer_says(layers.last(), prefix, key) {
            Some(v) => v,
            None => lookup(layers.drop_last(), prefix, key),
        }
    }
}

/// The entries of `prefix` in `l` once it is made sure to exist: the
/// entries there, or an empty map of children.
pub open spec fn entry_or_empty(l: Map<Seq<Seq<u8>>, PrefixMapModel>, prefix: Seq<Seq<u8>>) -> PrefixMapModel {
    if l.contains_key(prefix) {
        l[prefix]
    } else {
        PrefixMapModel::Children(Map::empty())
    }
}


/// Layer `l` after storing `value` under `prefix` and `key`.
pub open spec fn written(l: LayerModel, prefix: Seq<Seq<u8>>, key: Seq<u8>, value: Option<Seq<u8>>) -> LayerModel {
    LayerModel {
        layer: l.layer.insert(prefix, prefix_map_insert(entry_or_empty(l.layer, prefix), key, value)),
        dirty: l.dirty.insert(prefix),
    }
}

/// The layers with the top one replaced by `top`.
pub open spec fn with_top(layers: Seq<LayerModel>, top: LayerModel) -> Seq<LayerModel> {
    layers.update(layers.len() - 1, top)
}

/// `q` lies at or under `c`.
pub open spec fn starts_with(q: Seq<Seq<u8>>, c: Seq<Seq<u8>>) -> bool {
    q.len() >= c.len() && q.subrange(0, c.len() as int) == c
}

/// The prefixes at or under `c` that some layer holds entries for.
pub open spec fn mentioned_under(layers: Seq<LayerModel>, c: Seq<Seq<u8>>) -> Set<Seq<Seq<u8>>> {
    Set::new(|q: Seq<Seq<u8>>| starts_with(q, c) && exists|i: int| 0 <= i < layers.len() && (#[trigger] layers[i]).layer.contains_key(q))
}

/// Layer `l` after marking every prefix of `ps` deleted.
pub open spec fn deleted_all(l: LayerModel, ps: Set<Seq<Seq<u8>>>) -> LayerModel {
    LayerModel {
        layer: l.layer.union_prefer_right(Map::new(|q: Seq<Seq<u8>>| ps.contains(q), |q: Seq<Seq<u8>>| PrefixMapModel::Deleted)),
        dirty: l.dirty.union(ps),
    }
}

/// `prefix` is visible: the topmost layer that holds anything for it holds
/// its children rather than a deletion.
pub open spec fn visible(layers: Seq<LayerModel>, prefix: Seq<Seq<u8>>) -> bool
    decreases layers.len(),
{
    if layers.len() == 0 {
        false
    } else if layers.last().layer.contains_key(prefix) {
        layers.last().layer[prefix] is Children
    } else {
        visible(layers.drop_last(), prefix)
    }
}

/// A value written under `prefix` and `key` is what is read back there;
/// other keys read as before, unless the top layer had deleted `prefix` and
/// a value (not a deletion) was written.
pub proof fn lemma_lookup_after_write(
    layers: Seq<LayerModel>,
    prefix: Seq<Seq<u8>>,
    key: Seq<u8>,
    value: Option<Seq<u8>>,
    p2: Seq<Seq<u8>>,
    k2: Seq<u8>,
)
    requires
        layers.len() > 0,
    ensures
        lookup(with_top(layers, written(layers.last(), prefix, key, value)), prefix, key) == value,
        (p2 != prefix || k2 != key) && !(p2 == prefix && value is Some && layers.last().layer.contains_key(prefix)
            && layers.last().layer[prefix] is Deleted)
            ==> lookup(with_top(layers, written(layers.last(), prefix, key, value)), p2, k2) == lookup(layers, p2, k2),
{
    let after = with_top(layers, written(layers.last(), prefix, key, value));
    assert(after.drop_last() =~= layers.drop_last());
    assert(after.last() == written(layers.last(), prefix, key, value));
}


/// What `prefix` holds once the top layer's entries `top_entry` are folded
/// into the next layer's entries `next`.
pub open spec fn combine_entry(next: Map<Seq<Seq<u8>>, PrefixMapModel>, prefix: Seq<Seq<u8>>, top_entry: PrefixMapModel) -> PrefixMapModel {
    match top_entry {
        PrefixMapModel::Children(c) => if next.contains_key(prefix) && next[prefix] is Children {
            PrefixMapModel::Children(next[prefix]->Children_0.union_prefer_right(c))
        } else {
            PrefixMapModel::Children(c)
        },
        PrefixMapModel::Deleted => PrefixMapModel::Deleted,
    }
}

/// The layer `next` with the layer `top` folded into it.
pub open spec fn combined(next: LayerModel, top: LayerModel) -> LayerModel {
    LayerModel {
        layer: Map::new(
            |p: Seq<Seq<u8>>| next.layer.contains_key(p) || top.layer.contains_key(p),
            |p: Seq<Seq<u8>>| if top.layer.contains_key(p) {
                combine_entry(next.layer, p, top.layer[p])
            } else {
                next.layer[p]
            },
        ),
        dirty: next.dirty.union(top.dirty),
    }
}

/// The layers after `combine_down`: the top folded into the one below; a
/// lone layer is dropped.
pub open spec fn combine_down_layers(layers: Seq<LayerModel>) -> Seq<LayerModel> {
    if layers.len() == 0 {
        layers
    } else if layers.len() == 1 {
        Seq::empty()
    } else {
        layers.drop_last().update(layers.len() - 2, combined(layers[layers.len() - 2], layers.last()))
    }
}

/// Folding the top layer into the one below it reads the same everywhere,
/// unless the top layer holds children for a prefix that the layer below
/// deleted: there the keys that the top layer does not hold show through.
pub proof fn lemma_combine_down_reads(layers: Seq<LayerModel>, prefix: Seq<Seq<u8>>, key: Seq<u8>)
    requires
        layers.len() >= 2,
        !(layers.last().layer.contains_key(prefix) && layers.last().layer[prefix] is Children
            && layers[layers.len() - 2].layer.contains_key(prefix)
            && layers[layers.len() - 2].layer[prefix] is Deleted),
    ensures
        lookup(combine_down_layers(layers), prefix, key) == lookup(layers, prefix, key),
{
    let n = layers.len();
    let after = combine_down_layers(layers);
    let below = layers.drop_last();
    assert(after.drop_last() =~= below.drop_last());
    assert(below.last() == layers[n - 2]);
    let c = combined(layers[n - 2], layers.last());
    assert(after.last() == c);
    let top_s = layer_says(layers.last(), prefix, key);
    let nx_s = layer_says(layers[n - 2], prefix, key);
    let c_s = layer_says(c, prefix, key);
    assert(lookup(layers, prefix, key) == match top_s {
        Some(v) => v,
        None => lookup(below, prefix, key),
    });
    assert(lookup(below, prefix, key) == match nx_s {
        Some(v) => v,
        None => lookup(below.drop_last(), prefix, key),
    });
    assert(lookup(after, prefix, key) == match c_s {
        Some(v) => v,
        None => lookup(after.drop_last(), prefix, key),
    });
    let tl = layers.last().layer;
    let nl = layers[n - 2].layer;
    if tl.contains_key(prefix) {
        match tl[prefix] {
            PrefixMapModel::Children(m) => {
                if nl.contains_key(prefix) && nl[prefix] is Children {
                    let nm = nl[prefix]->Children_0;
                    assert(c.layer[prefix] == PrefixMapModel::Children(nm.union_prefer_right(m)));
                } else {
                    assert(c.layer[prefix] == PrefixMapModel::Children(m));
                }
            },
            PrefixMapModel::Deleted => {
                assert(c.layer[prefix] == PrefixMapModel::Deleted);
            },
        }
    } else {
        if nl.contains_key(prefix) {
            assert(c.layer[prefix] == nl[prefix]);
        }
    }
    assert(c_s == match top_s {
        Some(v) => Some(v),
        None => nx_s,
    });
}

/// Stores each of `pairs` in turn, as `PrefixMap::insert` does.
pub open spec fn insert_all(m: PrefixMapModel, pairs: Seq<(Seq<u8>, Option<Seq<u8>>)>) -> PrefixMapModel
    decreases pairs.len(),
{
    if pairs.len() == 0 {
        m
    } else {
        prefix_map_insert(insert_all(m, pairs.drop_last()), pairs.last().0, pairs.last().1)
    }
}

/// Layer `l` after applying one mutation.
pub open spec fn apply_mutation(l: LayerModel, mutation: Mutation) -> LayerModel {
    let p = mutation.prefix.model();
    LayerModel {
        layer: l.layer.insert(
            p,
            match mutation.entries {
                PrefixMap::DeletedPrefixMap => PrefixMapModel::Deleted,
                PrefixMap::Children(c) => insert_all(entry_or_empty(l.layer, p), c.pairs()),
            },
        ),
        dirty: l.dirty.insert(p),
    }
}

/// Layer `l` after applying the mutations in order.
pub open spec fn apply_mutations(l: LayerModel, mutations: Seq<Mutation>) -> LayerModel
    decreases mutations.len(),
{
    if mutations.len() == 0 {
        l
    } else {
        apply_mutation(apply_mutations(l, mutations.drop_last()), mutations.last())
    }
}

/// The prefixes that some layer marks changed.
pub open spec fn all_dirty(layers: Seq<LayerModel>) -> Set<Seq<Seq<u8>>>
    decreases layers.len(),
{
    if layers.len() == 0 {
        Set::empty()
    } else {
        all_dirty(layers.drop_last()).union(layers.last().dirty)
    }
}

/// The keys that layer `l` holds under `prefix` in a map of children.
pub open spec fn children_keys(l: LayerModel, prefix: Seq<Seq<u8>>) -> Set<Seq<u8>> {
    if l.layer.contains_key(prefix) {
        match l.layer[prefix] {
            PrefixMapModel::Children(c) => c.dom(),
            PrefixMapModel::Deleted => Set::empty(),
        }
    } else {
        Set::empty()
    }
}

/// The keys that some layer holds under `prefix` in a map of children.
pub open spec fn keys_under(layers: Seq<LayerModel>, prefix: Seq<Seq<u8>>) -> Set<Seq<u8>>
    decreases layers.len(),
{
    if layers.len() == 0 {
        Set::empty()
    } else {
        keys_under(layers.drop_last(), prefix).union(children_keys(layers.last(), prefix))
    }
}

/// A map of children that deletes each key of `keys` and says nothing else.
pub open spec fn deletions_of(keys: Set<Seq<u8>>) -> PrefixMapModel {
    PrefixMapModel::Children(Map::new(|k: Seq<u8>| keys.contains(k), |k: Seq<u8>| None::<Seq<u8>>))
}

/// What the top layer holds under `prefix` once `ensure` made it exist: its
/// children if it held them; where it had deleted the prefix, a deletion of
/// each key that a lower layer holds there; else an empty map of children.
pub open spec fn ensured_entry(layers: Seq<LayerModel>, prefix: Seq<Seq<u8>>) -> PrefixMapModel {
    let top = layers.last().layer;
    if !top.contains_key(prefix) {
        PrefixMapModel::Children(Map::empty())
    } else if top[prefix] is Deleted {
        deletions_of(keys_under(layers.drop_last(), prefix))
    } else {
        top[prefix]
    }
}

/// The layers once `ensure` has made `prefix` exist in the top one.
pub open spec fn ensured(layers: Seq<LayerModel>, prefix: Seq<Seq<u8>>) -> Seq<LayerModel> {
    with_top(
        layers,
        LayerModel { layer: layers.last().layer.insert(prefix, ensured_entry(layers, prefix)), dirty: layers.last().dirty },
    )
}

/// A key that no map of children holds under `prefix` reads as nothing there.
pub proof fn lemma_unheld_key(layers: Seq<LayerModel>, prefix: Seq<Seq<u8>>, key: Seq<u8>)
    requires
        !keys_under(layers, prefix).contains(key),
    ensures
        lookup(layers, prefix, key) == None::<Seq<u8>>,
    decreases layers.len(),
{
    if layers.len() > 0 {
        lemma_unheld_key(layers.drop_last(), prefix, key);
    }
}

/// Making sure a prefix exists makes it visible, even where the top layer had
/// deleted it, and changes no read, nor whether another prefix is visible.
pub proof fn lemma_ensured_visible(layers: Seq<LayerModel>, prefix: Seq<Seq<u8>>, p: Seq<Seq<u8>>, key: Seq<u8>)
    requires
        layers.len() > 0,
    ensures
        ensured(layers, prefix).len() == layers.len(),
        visible(ensured(layers, prefix), prefix),
        lookup(ensured(layers, prefix), p, key) == lookup(layers, p, key),
        p != prefix ==> visible(ensured(layers, prefix), p) == visible(layers, p),
{
    let after = ensured(layers, prefix);
    assert(after.drop_last() =~= layers.drop_last());
    assert(after.last().layer.contains_key(prefix));
    let top = layers.last().layer;
    if p == prefix && top.contains_key(prefix) && top[prefix] is Deleted {
        if !keys_under(layers.drop_last(), prefix).contains(key) {
            lemma_unheld_key(layers.drop_last(), prefix, key);
        }
    }
}

/// The layers after `push_overlay` on `base` and then writes that each
/// replace the top layer, the successive tops being `tops`.
pub open spec fn overlaid(base: Seq<LayerModel>, tops: Seq<LayerModel>) -> Seq<LayerModel>
    decreases tops.len(),
{
    if tops.len() == 0 {
        base.push(empty_layer())
    } else {
        with_top(overlaid(base, tops.drop_last()), tops.last())
    }
}

/// Whatever the writes since `push_overlay` left in the top layer (the
/// writes of `write`, `ensure`, `delete_under` and `mutate` each replace only
/// the top layer), `pop_overlay` gives back the layers as they were, and so
/// every read and every visible prefix.
pub proof fn lemma_pop_discards_overlay(base: Seq<LayerModel>, tops: Seq<LayerModel>, prefix: Seq<Seq<u8>>, key: Seq<u8>)
    ensures
        overlaid(base, tops).len() == base.len() + 1,
        overlaid(base, tops).drop_last() == base,
        lookup(overlaid(base, tops).drop_last(), prefix, key) == lookup(base, prefix, key),
        visible(overlaid(base, tops).drop_last(), prefix) == visible(base, prefix),
    decreases tops.len(),
{
    if tops.len() == 0 {
        assert(base.push(empty_layer()).drop_last() =~= base);
    } else {
        lemma_pop_discards_overlay(base, tops.drop_last(), prefix, key);
        let prev = overlaid(base, tops.drop_last());
        assert(with_top(prev, tops.last()).drop_last() =~= prev.drop_last());
    }
}

/// A write under `prefix` adds `prefix`, and no other prefix, to those that
/// the next `notify_dirty` reports.
pub proof fn lemma_write_marks_dirty(layers: Seq<LayerModel>, prefix: Seq<Seq<u8>>, key: Seq<u8>, value: Option<Seq<u8>>)
    requires
        layers.len() > 0,
    ensures
        all_dirty(with_top(layers, written(layers.last(), prefix, key, value))) == all_dirty(layers).insert(prefix),
{
    let after = with_top(layers, written(layers.last(), prefix, key, value));
    assert(after.drop_last() =~= layers.drop_last());
    assert(all_dirty(after) =~= all_dirty(layers).insert(prefix));
}

/// Pushing an empty layer changes no read and no visible prefix.
pub proof fn lemma_push_keeps_reads(layers: Seq<LayerModel>, prefix: Seq<Seq<u8>>, key: Seq<u8>)
    ensures
        lookup(layers.push(empty_layer()), prefix, key) == lookup(layers, prefix, key),
        visible(layers.push(empty_layer()), prefix) == visible(layers, prefix),
        all_dirty(layers.push(empty_layer())) == all_dirty(layers),
{
    assert(layers.push(empty_layer()).drop_last() =~= layers);
    assert(all_dirty(layers.push(empty_layer())) =~= all_dirty(layers));
}

/// A change that replaces only the top layer (`write`, `ensure`,
/// `delete_under`, `mutate`) keeps the number of layers and every layer
/// below the top, so that `pop_overlay` after `push_overlay` and any such
/// changes gives back the layers as they were.
pub proof fn lemma_top_change_keeps_lower(layers: Seq<LayerModel>, top: LayerModel)
    requires
        layers.len() > 0,
    ensures
        with_top(layers, top).len() == layers.len(),
        with_top(layers, top).drop_last() == layers.drop_last(),
{
    assert(with_top(layers, top).drop_last() =~= layers.drop_last());
}

/// Listening, writing, notifying and alerting: once listener `id` listens
/// under `p` and a write under `q` is made to layers that mark nothing
/// changed, the next `notify_dirty` reports `p` exactly when `q` is `p`; the
/// listeners then alerted under `p` end with `id`; after the alert `id`
/// still listens under `p` exactly when one of its registrations there
/// answered `true` (for a listener registered there once: exactly when its
/// answer was `true`, so that one that answers `false` is never alerted
/// again); and an alert under another prefix leaves those under `p` as
/// they were.
pub proof fn lemma_listen_write_notify(
    layers: Seq<LayerModel>,
    listeners: Map<Seq<Seq<u8>>, Seq<u64>>,
    p: Seq<Seq<u8>>,
    id: u64,
    q: Seq<Seq<u8>>,
    key: Seq<u8>,
    value: Option<Seq<u8>>,
    keep: Seq<bool>,
    other: Seq<Seq<u8>>,
    other_keep: Seq<bool>,
)
    requires
        layers.len() > 0,
        all_dirty(layers) == Set::<Seq<Seq<u8>>>::empty(),
        keep.len() == listened(listeners, p, id)[p].len(),
        other != p,
    ensures
        all_dirty(with_top(layers, written(layers.last(), q, key, value))).contains(p) <==> q == p,
        listened(listeners, p, id).contains_key(p),
        listened(listeners, p, id)[p].last() == id,
        (alerted(listened(listeners, p, id), p, keep).contains_key(p) && alerted(listened(listeners, p, id), p, keep)[p].contains(id))
            <==> exists|i: int| 0 <= i < keep.len() && listened(listeners, p, id)[p][i] == id && #[trigger] keep[i],
        !(listeners.contains_key(p) && listeners[p].contains(id)) ==> {
            &&& forall|i: int| 0 <= i < listened(listeners, p, id)[p].len() - 1 ==> (#[trigger] listened(listeners, p, id)[p][i]) != id
            &&& (alerted(listened(listeners, p, id), p, keep).contains_key(p) && alerted(listened(listeners, p, id), p, keep)[p].contains(id))
                <==> keep.last()
        },
        alerted(listened(listeners, p, id), other, other_keep).contains_key(p),
        alerted(listened(listeners, p, id), other, other_keep)[p] == listened(listeners, p, id)[p],
{
    lemma_write_marks_dirty(layers, q, key, value);
    let reg = listened(listeners, p, id);
    let ids = reg[p];
    lemma_retained_contains(ids, keep, id);
    let n = ids.len() - 1;
    assert(ids[n] == id);
    if !(listeners.contains_key(p) && listeners[p].contains(id)) {
        assert forall|i: int| 0 <= i < ids.len() - 1 implies #[trigger] ids[i] != id by {
            if listeners.contains_key(p) {
                assert(ids[i] == listeners[p][i]);
                if ids[i] == id {
                    assert(listeners[p].contains(id));
                }
            }
        }
        if keep.last() {
            assert(ids[n] == id && keep[n]);
        }
    }
}

/// Once `notify_dirty` has cleared every layer's marks, no prefix is marked
/// changed: a second `notify_dirty` right after reports nothing.
pub proof fn lemma_cleared_reports_nothing(layers: Seq<LayerModel>)
    requires
        forall|i: int| 0 <= i < layers.len() ==> (#[trigger] layers[i]).dirty == Set::<Seq<Seq<u8>>>::empty(),
    ensures
        all_dirty(layers) == Set::<Seq<Seq<u8>>>::empty(),
    decreases layers.len(),
{
    if layers.len() > 0 {
        assert(layers[layers.len() - 1].dirty == Set::<Seq<Seq<u8>>>::empty());
        assert forall|i: int| 0 <= i < layers.drop_last().len() implies (#[trigger] layers.drop_last()[i]).dirty
            == Set::<Seq<Seq<u8>>>::empty() by {
            assert(layers.drop_last()[i] == layers[i]);
        }
        lemma_cleared_reports_nothing(layers.drop_last());
        assert(all_dirty(layers) =~= Set::<Seq<Seq<u8>>>::empty());
    }
}

/// Folding the top layer down leaves one layer fewer, the same prefixes
/// visible, and the same prefixes marked changed (the top layer's marks are
/// kept, for the next `notify_dirty`).
pub proof fn lemma_combine_down_keeps_prefixes(layers: Seq<LayerModel>, prefix: Seq<Seq<u8>>)
    requires
        layers.len() >= 2,
    ensures
        combine_down_layers(layers).len() == layers.len() - 1,
        visible(combine_down_layers(layers), prefix) == visible(layers, prefix),
        all_dirty(combine_down_layers(layers)) == all_dirty(layers),
{
    let n = layers.len();
    let after = combine_down_layers(layers);
    let below = layers.drop_last();
    assert(after.drop_last() =~= below.drop_last());
    assert(below.last() == layers[n - 2]);
    let c = combined(layers[n - 2], layers.last());
    assert(after.last() == c);
    let tl = layers.last().layer;
    let nl = layers[n - 2].layer;
    if tl.contains_key(prefix) {
        assert(c.layer.contains_key(prefix));
        match tl[prefix] {
            PrefixMapModel::Children(m) => {
                assert(c.layer[prefix] is Children);
            },
            PrefixMapModel::Deleted => {
                assert(c.layer[prefix] == PrefixMapModel::Deleted);
            },
        }
    } else if nl.contains_key(prefix) {
        assert(c.layer[prefix] == nl[prefix]);
    } else {
        assert(!c.layer.contains_key(prefix));
    }
    assert(visible(layers, prefix) == if tl.contains_key(prefix) {
        tl[prefix] is Children
    } else {
        visible(below, prefix)
    });
    assert(visible(below, prefix) == if nl.contains_key(prefix) {
        nl[prefix] is Children
    } else {
        visible(below.drop_last(), prefix)
    });
    assert(visible(after, prefix) == if c.layer.contains_key(prefix) {
        c.layer[prefix] is Children
    } else {
        visible(below.drop_last(), prefix)
    });
    assert(all_dirty(below) == all_dirty(below.drop_last()).union(layers[n - 2].dirty));
    assert(all_dirty(after) == all_dirty(below.drop_last()).union(c.dirty));
    assert(all_dirty(after) =~= all_dirty(below.drop_last()).union(layers[n - 2].dirty.union(layers.last().dirty)));
    assert(all_dirty(layers) =~= all_dirty(below.drop_last()).union(layers[n - 2].dirty).union(layers.last().dirty));
}

/// A prefix that no layer holds entries for is neither visible nor holds values.
pub proof fn lemma_absent_prefix(layers: Seq<LayerModel>, prefix: Seq<Seq<u8>>, key: Seq<u8>)
    requires
        forall|i: int| 0 <= i < layers.len() ==> !(#[trigger] layers[i]).layer.contains_key(prefix),
    ensures
        !visible(layers, prefix),
        lookup(layers, prefix, key) == None::<Seq<u8>>,
    decreases layers.len(),
{
    if layers.len() > 0 {
        assert(!layers[layers.len() - 1].layer.contains_key(prefix));
        assert forall|i: int| 0 <= i < layers.drop_last().len() implies !(#[trigger] layers.drop_last()[i]).layer.contains_key(prefix) by {
            assert(layers.drop_last()[i] == layers[i]);
        }
        lemma_absent_prefix(layers.drop_last(), prefix, key);
    }
}

/// Once every prefix at or under `c` that a layer holds is deleted in the
/// top layer, no prefix at or under `c` is visible, and none holds a value.
pub proof fn lemma_deleted_under(layers: Seq<LayerModel>, c: Seq<Seq<u8>>, q: Seq<Seq<u8>>, key: Seq<u8>)
    requires
        layers.len() > 0,
        starts_with(q, c),
    ensures
        !visible(with_top(layers, deleted_all(layers.last(), mentioned_under(layers, c))), q),
        lookup(with_top(layers, deleted_all(layers.last(), mentioned_under(layers, c))), q, key) == None::<Seq<u8>>,
{
    let ps = mentioned_under(layers, c);
    let after = with_top(layers, deleted_all(layers.last(), ps));
    let n = layers.len();
    assert(after.last() == deleted_all(layers.last(), ps));
    if ps.contains(q) {
        assert(after.last().layer[q] == PrefixMapModel::Deleted);
    } else {
        assert forall|i: int| 0 <= i < after.len() implies !(#[trigger] after[i]).layer.contains_key(q) by {
            if layers[i].layer.contains_key(q) {
                assert(ps.contains(q));
            }
            if i == n - 1 {
                assert(!layers[n - 1].layer.contains_key(q));
            }
        }
        lemma_absent_prefix(after, q, key);
    }
}

/// Storing each of `pairs` into an empty map of children yields the map the
/// pairs denote.
pub proof fn lemma_insert_all_children(pairs: Seq<(Seq<u8>, Option<Seq<u8>>)>)
    ensures
        insert_all(PrefixMapModel::Children(Map::empty()), pairs) == PrefixMapModel::Children(pairs_to_map(pairs)),
    decreases pairs.len(),
{
    if pairs.len() > 0 {
        lemma_insert_all_children(pairs.drop_last());
    }
}

/// `ms` lists the entries of layer `top`: one mutation per prefix, in
/// prefix order.
pub open spec fn snapshot_of(ms: Seq<Mutation>, top: StoreLayer) -> bool {
    &&& ms.len() == top.layer.pairs().len()
    &&& forall|i: int| 0 <= i < ms.len() ==> {
        &&& (#[trigger] ms[i]).prefix.model() == top.layer.pairs()[i].0
        &&& ms[i].entries.model() == top.layer.pairs()[i].1
        &&& ms[i].entries.wf()
    }
}

/// Replaying a layer's mutations, as `top_layer_mutations` lists them, on an
/// empty layer reproduces that layer's entries: a snapshot sent by the
/// server rebuilds its state at the client.
pub proof fn lemma_snapshot_replay(top: StoreLayer, ms: Seq<Mutation>)
    requires
        top.wf(),
        snapshot_of(ms, top),
    ensures
        apply_mutations(empty_layer(), ms).layer == top.model().layer,
{
    lemma_replay_prefix(top, ms, ms.len() as int);
    assert(top.layer.pairs().subrange(0, ms.len() as int) =~= top.layer.pairs());
    assert(ms.subrange(0, ms.len() as int) =~= ms);
}

proof fn lemma_replay_prefix(top: StoreLayer, ms: Seq<Mutation>, k: int)
    requires
        top.wf(),
        0 <= k <= ms.len(),
        ms.len() == top.layer.pairs().len(),
        forall|i: int| 0 <= i < ms.len() ==> {
            &&& (#[trigger] ms[i]).prefix.model() == top.layer.pairs()[i].0
            &&& ms[i].entries.model() == top.layer.pairs()[i].1
        },
    ensures
        apply_mutations(empty_layer(), ms.subrange(0, k)).layer == pairs_to_map(top.layer.pairs().subrange(0, k)),
    decreases k,
{
    let ps = top.layer.pairs();
    if k == 0 {
        assert(ms.subrange(0, 0) =~= Seq::<Mutation>::empty());
        assert(ps.subrange(0, 0) =~= Seq::<(Seq<Seq<u8>>, PrefixMapModel)>::empty());
    } else {
        lemma_replay_prefix(top, ms, k - 1);
        let sub = ms.subrange(0, k);
        assert(sub.drop_last() =~= ms.subrange(0, k - 1));
        assert(sub.last() == ms[k - 1]);
        let psub = ps.subrange(0, k);
        assert(psub.drop_last() =~= ps.subrange(0, k - 1));
        assert(psub.last() == ps[k - 1]);
        let prev = apply_mutations(empty_layer(), ms.subrange(0, k - 1));
        let p = ms[k - 1].prefix.model();
        assert(p == ps[k - 1].0);
        lemma_pairs_to_map_contains(ps.subrange(0, k - 1), p);
        if prev.layer.contains_key(p) {
            let j = choose|j: int| 0 <= j < ps.subrange(0, k - 1).len() && (#[trigger] ps.subrange(0, k - 1)[j]).0 == p;
            assert(ps[j].0 == p);
            assert(<Vec<Vec<u8>> as KeyOrder>::less(ps[j].0, ps[k - 1].0));
            <Vec<Vec<u8>> as KeyOrder>::lemma_irreflexive(p);
        }
        match ms[k - 1].entries {
            PrefixMap::Children(c) => {
                lemma_insert_all_children(c.pairs());
            },
            PrefixMap::DeletedPrefixMap => {},
        }
        assert(apply_mutations(empty_layer(), sub).layer =~= pairs_to_map(psub));
    }
}

/// A change to the entries under one prefix, as the server sends it.
#[derive(Debug)]
pub struct Mutation {
    pub prefix: Vec<Vec<u8>>,
    pub entries: PrefixMap,
}

/// One layer of a store.
#[derive(Debug)]
pub struct StoreLayer {
    /// Map of prefix to direct children at that prefix.
    pub layer: SortedMap<Vec<Vec<u8>>, PrefixMap>,
    /// The prefixes that have been modified in this layer, each once.
    pub dirty: Vec<Vec<Vec<u8>>>,
}

impl StoreLayer {
    pub open spec fn wf(&self) -> bool {
        &&& self.layer.wf()
        &&& forall|i: int| 0 <= i < self.layer.entries@.len() ==> (#[trigger] self.layer.entries@[i]).1.wf()
        &&& self.dirty.model().no_duplicates()
    }

    pub open spec fn model(&self) -> LayerModel {
        LayerModel { layer: self.layer.map(), dirty: self.dirty.model().to_set() }
    }

    pub fn new() -> (r: StoreLayer)
        ensures
            r.wf(),
            r.model() == empty_layer(),
    {
        let r = StoreLayer { layer: SortedMap::new(), dirty: Vec::new() };
        assert(r.dirty.model() =~= Seq::<Seq<Seq<u8>>>::empty());
        assert(r.model().dirty =~= Set::<Seq<Seq<u8>>>::empty());
        r
    }

    /// Records that `prefix` changed in this layer.
    pub fn mark_dirty(&mut self, prefix: &Vec<Vec<u8>>)
        requires
            old(self).wf(),
        ensures
            final(self).wf(),
            final(self).layer == old(self).layer,
            final(self).model().dirty == old(self).model().dirty.insert(prefix.model()),
    {
        let mut i: usize = 0;
        while i < self.dirty.len()
            invariant
                self.wf(),
                i <= self.dirty@.len(),
                self.dirty.model().len() == self.dirty@.len(),
                forall|j: int| 0 <= j < i ==> self.dirty.model()[j] != prefix.model(),
            decreases self.dirty.len() - i,
        {
            if self.dirty[i].compare(prefix) == Order::Equal {
                proof {
                    assert(self.dirty.model()[i as int] == self.dirty@[i as int].model());
                    assert(self.dirty.model().contains(prefix.model()));
                    assert(self.model().dirty =~= self.model().dirty.insert(prefix.model()));
                }
                return;
            }
            assert(self.dirty.model()[i as int] == self.dirty@[i as int].model());
            i = i + 1;
        }
        let ghost before = self.dirty.model();
        assert(!before.contains(prefix.model()));
        let p = prefix.duplicate();
        self.dirty.push(p);
        proof {
            assert(self.dirty.model() =~= before.push(prefix.model()));
            assert(self.model().dirty =~= before.to_set().insert(prefix.model()));
        }
    }

    /// Writes `entries` as the whole of what this layer holds under `prefix`.
    pub fn put(&mut self, prefix: Vec<Vec<u8>>, entries: PrefixMap)
        requires
            old(self).wf(),
            entries.wf(),
        ensures
            final(self).wf(),
            final(self).dirty == old(self).dirty,
            final(self).model().layer == old(self).model().layer.insert(prefix.model(), entries.model()),
    {
        let ghost kv = (prefix, entries);
        let ghost old_entries = self.layer.entries@;
        self.layer.insert(prefix, entries);
        assert forall|i: int| 0 <= i < self.layer.entries@.len() implies (#[trigger] self.layer.entries@[i]).1.wf() by {
            if self.layer.entries@[i] != kv {
                let j = choose|j: int| 0 <= j < old_entries.len() && old_entries[j] == self.layer.entries@[i];
                assert(old_entries[j].1.wf());
            }
        }
    }

    /// A copy of what this layer holds under `prefix`, if anything.
    pub fn entries_of(&self, prefix: &Vec<Vec<u8>>) -> (r: Option<PrefixMap>)
        requires
            self.wf(),
        ensures
            match r {
                Some(m) => self.model().layer.contains_key(prefix.model()) && m.model() == self.model().layer[prefix.model()]
                    && m.wf(),
                None => !self.model().layer.contains_key(prefix.model()),
            },
    {
        match self.layer.find(prefix) {
            Ok(i) => {
                proof {
                    self.layer.lemma_map_at(i as int);
                }
                let m = self.layer.entries[i].1.copy();
                assert(self.layer.entries@[i as int].1.wf());
                Some(m)
            },
            Err(_) => {
                proof {
                    self.layer.lemma_map_contains(prefix.model());
                    if self.model().layer.contains_key(prefix.model()) {
                        let j = choose|j: int| 0 <= j < self.layer.pairs().len() && (#[trigger] self.layer.pairs()[j]).0 == prefix.model();
                        <Vec<Vec<u8>> as KeyOrder>::lemma_irreflexive(prefix.model());
                    }
                }
                None
            },
        }
    }
}

/// The synchronizable store: its layers, bottom first, and its listeners.
#[derive(Debug)]
pub struct Store {
    pub inner: StoreInner,
}

/// The layers of a store, bottom first, and its listeners.
#[derive(Debug)]
pub struct StoreInner {
    pub layers: Vec<StoreLayer>,
    pub listeners: ListenerMap,
}

impl Default for StoreInner {
    /// One empty layer and no listener.
    fn default() -> (r: StoreInner)
        ensures
            r.layers@.len() == 1,
            r.layers@[0].wf(),
            r.layers@[0].model() == empty_layer(),
            r.listeners.wf(),
            r.listeners.view() == Map::<Seq<Seq<u8>>, Seq<u64>>::empty(),
    {
        let mut layers: Vec<StoreLayer> = Vec::new();
        layers.push(StoreLayer::new());
        StoreInner { layers, listeners: ListenerMap::new() }
    }
}

impl Store {
    pub open spec fn wf(&self) -> bool {
        &&& forall|i: int| 0 <= i < self.inner.layers@.len() ==> (#[trigger] self.inner.layers@[i]).wf()
        &&& self.inner.listeners.wf()
    }

    /// The layers, bottom first.
    pub open spec fn model(&self) -> Seq<LayerModel> {
        self.inner.layers@.map_values(|l: StoreLayer| l.model())
    }

    /// A store with one empty layer and no listener.
    pub fn new() -> (r: Store)
        ensures
            r.wf(),
            r.model() == seq![empty_layer()],
            r.inner.listeners.view() == Map::<Seq<Seq<u8>>, Seq<u64>>::empty(),
    {
        let r = Store { inner: StoreInner::default() };
        assert(r.model() =~= seq![empty_layer()]);
        r
    }

    /// Adds an empty layer on top, for changes that may be dropped again.
    pub fn push_overlay(&mut self)
        requires
            old(self).wf(),
        ensures
            final(self).wf(),
            final(self).model() == old(self).model().push(empty_layer()),
            final(self).inner.listeners == old(self).inner.listeners,
    {
        let ghost before = self.model();
        self.inner.layers.push(StoreLayer::new());
        assert(self.model() =~= before.push(empty_layer()));
    }

    /// Drops the top layer and the changes it holds (the last one too).
    pub fn pop_overlay(&mut self)
        requires
            old(self).wf(),
        ensures
            final(self).wf(),
            final(self).model() == if old(self).model().len() == 0 {
                old(self).model()
            } else {
                old(self).model().drop_last()
            },
            final(self).inner.listeners == old(self).inner.listeners,
    {
        let ghost before = self.model();
        let _ = self.inner.layers.pop();
        assert(self.model() =~= if before.len() == 0 { before } else { before.drop_last() });
    }

    /// Takes the top layer out, to be changed and put back.
    fn take_top(&mut self) -> (top: StoreLayer)
        requires
            old(self).wf(),
            old(self).inner.layers@.len() > 0,
        ensures
            final(self).wf(),
            final(self).inner.layers@ == old(self).inner.layers@.drop_last(),
            final(self).model() == old(self).model().drop_last(),
            final(self).inner.listeners == old(self).inner.listeners,
            top == old(self).inner.layers@.last(),
            top.wf(),
    {
        let ghost before = self.model();
        let top = self.inner.layers.pop().unwrap();
        assert(self.model() =~= before.drop_last());
        top
    }

    /// Puts a changed top layer back.
    fn put_top(&mut self, top: StoreLayer)
        requires
            old(self).wf(),
            top.wf(),
        ensures
            final(self).wf(),
            final(self).model() == old(self).model().push(top.model()),
            final(self).inner.listeners == old(self).inner.listeners,
    {
        let ghost before = self.model();
        let ghost t = top.model();
        self.inner.layers.push(top);
        assert(self.model() =~= before.push(t));
    }

    /// A map of children that deletes each key that some layer holds under
    /// `prefix` in a map of children.
    fn deletions_below(&self, prefix: &Vec<Vec<u8>>) -> (r: PrefixMap)
        requires
            self.wf(),
        ensures
            r.wf(),
            r.model() == deletions_of(keys_under(self.model(), prefix.model())),
    {
        let mut m: SortedMap<Vec<u8>, PrefixMapValue> = SortedMap::new();
        let mut i: usize = 0;
        while i < self.inner.layers.len()
            invariant
                self.wf(),
                i <= self.inner.layers@.len(),
                m.wf(),
                forall|k: Seq<u8>| #[trigger] m.map().contains_key(k) <==> keys_under(self.model().take(i as int), prefix.model()).contains(k),
                forall|k: Seq<u8>| #[trigger] m.map().contains_key(k) ==> m.map()[k] == None::<Seq<u8>>,
            decreases self.inner.layers@.len() - i,
        {
            let ghost lower = self.model().take(i as int);
            assert(self.model().take(i + 1) =~= lower.push(self.model()[i as int]));
            assert(self.model().take(i + 1).drop_last() =~= lower);
            assert(self.model()[i as int] == self.inner.layers@[i as int].model());
            let layer_i = &self.inner.layers[i];
            assert(layer_i.wf());
            let found = layer_i.entries_of(prefix);
            let ghost said = found.model();
            assert(found is Some <==> self.inner.layers@[i as int].model().layer.contains_key(prefix.model()));
            assert(said is Some <==> self.model()[i as int].layer.contains_key(prefix.model()));
            assert(said is Some ==> said->0 == self.model()[i as int].layer[prefix.model()]);
            if let Some(PrefixMap::Children(c)) = found {
                let mut j: usize = 0;
                while j < c.entries.len()
                    invariant
                        j <= c.entries@.len(),
                        c.wf(),
                        m.wf(),
                        forall|k: Seq<u8>| #[trigger] m.map().contains_key(k) <==> (keys_under(lower, prefix.model()).contains(k)
                            || exists|jj: int| 0 <= jj < j && (#[trigger] c.pairs()[jj]).0 == k),
                        forall|k: Seq<u8>| #[trigger] m.map().contains_key(k) ==> m.map()[k] == None::<Seq<u8>>,
                    decreases c.entries@.len() - j,
                {
                    let key = c.entries[j].0.duplicate();
                    let ghost km = key@;
                    assert(c.pairs()[j as int].0 == km);
                    m.insert(key, PrefixMapValue::Deleted);
                    proof {
                        assert forall|k: Seq<u8>| #[trigger] m.map().contains_key(k) <==> (keys_under(lower, prefix.model()).contains(k)
                            || exists|jj: int| 0 <= jj < j + 1 && (#[trigger] c.pairs()[jj]).0 == k) by {
                            if exists|jj: int| 0 <= jj < j + 1 && (#[trigger] c.pairs()[jj]).0 == k {
                                let jj = choose|jj: int| 0 <= jj < j + 1 && (#[trigger] c.pairs()[jj]).0 == k;
                                if jj < j {
                                    assert(exists|jx: int| 0 <= jx < j && (#[trigger] c.pairs()[jx]).0 == k);
                                }
                            }
                        }
                    }
                    j = j + 1;
                }
                proof {
                    assert forall|k: Seq<u8>| #[trigger] m.map().contains_key(k) <==> keys_under(self.model().take(i + 1), prefix.model()).contains(k) by {
                        c.lemma_map_contains(k);
                        assert(children_keys(self.model()[i as int], prefix.model()) == c.map().dom());
                    }
                }
            } else {
                proof {
                    assert forall|k: Seq<u8>| #[trigger] m.map().contains_key(k) <==> keys_under(self.model().take(i + 1), prefix.model()).contains(k) by {
                        assert(!children_keys(self.model()[i as int], prefix.model()).contains(k));
                    }
                }
            }
            i = i + 1;
        }
        let r = PrefixMap::Children(m);
        proof {
            assert(self.model().take(i as int) =~= self.model());
            assert(m.map() =~= Map::new(|k: Seq<u8>| keys_under(self.model(), prefix.model()).contains(k), |k: Seq<u8>| None::<Seq<u8>>));
        }
        r
    }

    /// Makes sure `prefix` exists in the top layer, even where it was empty
    /// or deleted; every read stays what it was.
    pub fn ensure(&mut self, prefix: &Vec<Vec<u8>>)
        requires
            old(self).wf(),
            old(self).model().len() > 0,
        ensures
            final(self).wf(),
            final(self).model() == ensured(old(self).model(), prefix.model()),
            final(self).inner.listeners == old(self).inner.listeners,
    {
        let ghost before = self.model();
        let mut top = self.take_top();
        match top.entries_of(prefix) {
            Some(PrefixMap::Children(_)) => {
                assert(top.model().layer.insert(prefix.model(), top.model().layer[prefix.model()]) =~= top.model().layer);
            },
            Some(PrefixMap::DeletedPrefixMap) => {
                let deletions = self.deletions_below(prefix);
                let p = prefix.duplicate();
                top.put(p, deletions);
            },
            None => {
                let p = prefix.duplicate();
                top.put(p, PrefixMap::new());
            },
        }
        self.put_top(top);
        assert(self.model() =~= ensured(before, prefix.model()));
    }

    /// The value visible under `prefix` and `key`, looking from the top layer down.
    pub fn get(&self, prefix: &Vec<Vec<u8>>, key: &Vec<u8>) -> (r: Option<Vec<u8>>)
        requires
            self.wf(),
        ensures
            r.model() == lookup(self.model(), prefix.model(), key@),
    {
        let ghost m = self.model();
        let mut i: usize = self.inner.layers.len();
        assert(m.subrange(0, i as int) =~= m);
        while i > 0
            invariant
                i <= self.inner.layers@.len(),
                m == self.model(),
                self.wf(),
                lookup(m, prefix.model(), key@) == lookup(m.subrange(0, i as int), prefix.model(), key@),
            decreases i,
        {
            let ghost sub = m.subrange(0, i as int);
            assert(sub.last() == self.inner.layers@[i - 1].model());
            assert(sub.drop_last() =~= m.subrange(0, i - 1));
            assert(self.inner.layers@[i - 1].wf());
            if let Some(map) = self.inner.layers[i - 1].entries_of(prefix) {
                if let Some(value) = map.get(key) {
                    match value {
                        PrefixMapValue::Value(v) => {
                            return Some(v);
                        },
                        PrefixMapValue::Deleted => {
                            return None;
                        },
                    }
                }
            }
            i = i - 1;
        }
        None
    }
}

impl Store {
    /// Stores `value` under `prefix` and `key` in the top layer, and marks
    /// `prefix` changed there.
    pub fn write(&mut self, prefix: &Vec<Vec<u8>>, key: Vec<u8>, value: PrefixMapValue)
        requires
            old(self).wf(),
            old(self).model().len() > 0,
        ensures
            final(self).wf(),
            final(self).model() == with_top(old(self).model(), written(old(self).model().last(), prefix.model(), key@, value.model())),
            final(self).inner.listeners == old(self).inner.listeners,
    {
        let ghost before = self.model();
        let ghost km = key@;
        let ghost vm = value.model();
        let mut top = self.take_top();
        let mut map = match top.entries_of(prefix) {
            Some(m) => m,
            None => PrefixMap::new(),
        };
        map.insert(key, value);
        let p = prefix.duplicate();
        top.put(p, map);
        top.mark_dirty(prefix);
        self.put_top(top);
        assert(self.model() =~= with_top(before, written(before.last(), prefix.model(), km, vm)));
    }

    /// All prefixes at or under `c` that some layer holds entries for, in order.
    pub fn prefixes_under(&self, c: &Vec<Vec<u8>>) -> (r: SortedMap<Vec<Vec<u8>>, bool>)
        requires
            self.wf(),
        ensures
            r.wf(),
            r.map().dom() == mentioned_under(self.model(), c.model()),
    {
        let ghost m = self.model();
        let mut found: SortedMap<Vec<Vec<u8>>, bool> = SortedMap::new();
        let mut i: usize = 0;
        while i < self.inner.layers.len()
            invariant
                self.wf(),
                m == self.model(),
                i <= self.inner.layers@.len(),
                found.wf(),
                found.map().dom() == Set::new(|q: Seq<Seq<u8>>| starts_with(q, c.model())
                    && exists|a: int| 0 <= a < i && (#[trigger] m[a]).layer.contains_key(q)),
            decreases self.inner.layers.len() - i,
        {
            let mut j: usize = 0;
            assert(self.inner.layers@[i as int].wf());
            while j < self.inner.layers[i].layer.entries.len()
                invariant
                    self.wf(),
                    m == self.model(),
                    i < self.inner.layers@.len(),
                    j <= self.inner.layers@[i as int].layer.entries@.len(),
                    found.wf(),
                    found.map().dom() == Set::new(|q: Seq<Seq<u8>>| starts_with(q, c.model())
                        && ((exists|a: int| 0 <= a < i && (#[trigger] m[a]).layer.contains_key(q))
                        || exists|b: int| 0 <= b < j && (#[trigger] self.inner.layers@[i as int].layer.pairs()[b]).0 == q)),
                decreases self.inner.layers@[i as int].layer.entries@.len() - j,
            {
                let q = &self.inner.layers[i].layer.entries[j].0;
                let ghost qm = q.model();
                assert(self.inner.layers@[i as int].layer.pairs()[j as int].0 == qm);
                if path_starts_with(q, c) {
                    let qq = q.duplicate();
                    found.insert(qq, true);
                }
                proof {
                    let f = Set::new(|x: Seq<Seq<u8>>| starts_with(x, c.model())
                        && ((exists|a: int| 0 <= a < i && (#[trigger] m[a]).layer.contains_key(x))
                        || exists|b: int| 0 <= b < j + 1 && (#[trigger] self.inner.layers@[i as int].layer.pairs()[b]).0 == x));
                    assert forall|x: Seq<Seq<u8>>| found.map().dom().contains(x) <==> f.contains(x) by {
                        if x == qm && starts_with(qm, c.model()) {
                            assert(self.inner.layers@[i as int].layer.pairs()[j as int].0 == x);
                        }
                        if (exists|b: int| 0 <= b < j + 1 && (#[trigger] self.inner.layers@[i as int].layer.pairs()[b]).0 == x)
                            && x != qm {
                            let b = choose|b: int| 0 <= b < j + 1 && (#[trigger] self.inner.layers@[i as int].layer.pairs()[b]).0 == x;
                            assert(b < j);
                        }
                    }
                    assert(found.map().dom() =~= f);
                }
                j = j + 1;
            }
            proof {
                let f = Set::new(|x: Seq<Seq<u8>>| starts_with(x, c.model())
                    && exists|a: int| 0 <= a < i + 1 && (#[trigger] m[a]).layer.contains_key(x));
                assert(m[i as int] == self.inner.layers@[i as int].model());
                assert forall|x: Seq<Seq<u8>>| found.map().dom().contains(x) <==> f.contains(x) by {
                    self.inner.layers@[i as int].layer.lemma_map_contains(x);
                    if exists|b: int| 0 <= b < j && (#[trigger] self.inner.layers@[i as int].layer.pairs()[b]).0 == x {
                        assert(m[i as int].layer.contains_key(x));
                    }
                    if starts_with(x, c.model()) && m[i as int].layer.contains_key(x) {
                        let b = choose|b: int| 0 <= b < self.inner.layers@[i as int].layer.pairs().len()
                            && (#[trigger] self.inner.layers@[i as int].layer.pairs()[b]).0 == x;
                        assert(b < j);
                    }
                }
                assert(found.map().dom() =~= f);
            }
            i = i + 1;
        }
        assert(found.map().dom() =~= mentioned_under(m, c.model()));
        found
    }

    /// Marks every prefix at or under `c` that some layer holds entries for
    /// deleted in the top layer, and changed there.
    pub fn delete_under(&mut self, c: &Vec<Vec<u8>>)
        requires
            old(self).wf(),
            old(self).model().len() > 0,
        ensures
            final(self).wf(),
            final(self).model() == with_top(
                old(self).model(),
                deleted_all(old(self).model().last(), mentioned_under(old(self).model(), c.model())),
            ),
            final(self).inner.listeners == old(self).inner.listeners,
    {
        let ghost before = self.model();
        let found = self.prefixes_under(c);
        let ghost ps = found.map().dom();
        let mut top = self.take_top();
        let ghost t0 = top.model();
        let mut j: usize = 0;
        proof {
            let e = Set::new(|q: Seq<Seq<u8>>| exists|b: int| 0 <= b < 0 && (#[trigger] found.pairs()[b]).0 == q);
            assert(e =~= Set::<Seq<Seq<u8>>>::empty());
            assert(deleted_all(t0, e).layer =~= t0.layer);
            assert(deleted_all(t0, e).dirty =~= t0.dirty);
        }
        while j < found.entries.len()
            invariant
                top.wf(),
                found.wf(),
                j <= found.pairs().len(),
                found.pairs().len() == found.entries@.len(),
                top.model() == deleted_all(t0, Set::new(|q: Seq<Seq<u8>>| exists|b: int| 0 <= b < j && (#[trigger] found.pairs()[b]).0 == q)),
            decreases found.entries.len() - j,
        {
            let q = found.entries[j].0.duplicate();
            let ghost qm = q.model();
            assert(found.pairs()[j as int].0 == qm);
            let ghost t1 = top.model();
            top.put(q, PrefixMap::DeletedPrefixMap);
            top.mark_dirty(&found.entries[j].0);
            proof {
                let sj = Set::new(|x: Seq<Seq<u8>>| exists|b: int| 0 <= b < j && (#[trigger] found.pairs()[b]).0 == x);
                let sj1 = Set::new(|x: Seq<Seq<u8>>| exists|b: int| 0 <= b < j + 1 && (#[trigger] found.pairs()[b]).0 == x);
                assert(sj1 =~= sj.insert(qm));
                assert(top.model().layer =~= deleted_all(t0, sj1).layer);
                assert(top.model().dirty =~= deleted_all(t0, sj1).dirty);
            }
            j = j + 1;
        }
        proof {
            let sj = Set::new(|x: Seq<Seq<u8>>| exists|b: int| 0 <= b < j && (#[trigger] found.pairs()[b]).0 == x);
            assert forall|x: Seq<Seq<u8>>| sj.contains(x) <==> ps.contains(x) by {
                found.lemma_map_contains(x);
            }
            assert(sj =~= ps);
        }
        self.put_top(top);
        assert(self.model() =~= with_top(before, deleted_all(before.last(), ps)));
    }

    /// The visible prefixes, in order.
    pub fn prefixes(&self) -> (r: Vec<Vec<Vec<u8>>>)
        requires
            self.wf(),
        ensures
            forall|a: int, b: int| 0 <= a < b < r@.len() ==> <Vec<Vec<u8>> as KeyOrder>::less(
                #[trigger] r.model()[a],
                #[trigger] r.model()[b],
            ),
            forall|q: Seq<Seq<u8>>| r.model().contains(q) <==> visible(self.model(), q),
    {
        let ghost m = self.model();
        let mut result: SortedMap<Vec<Vec<u8>>, bool> = SortedMap::new();
        let mut i: usize = 0;
        assert(result.map().dom() =~= Set::new(|q: Seq<Seq<u8>>| visible(m.subrange(0, 0), q)));
        while i < self.inner.layers.len()
            invariant
                self.wf(),
                m == self.model(),
                i <= self.inner.layers@.len(),
                result.wf(),
                result.map().dom() == Set::new(|q: Seq<Seq<u8>>| visible(m.subrange(0, i as int), q)),
            decreases self.inner.layers.len() - i,
        {
            let ghost prev = m.subrange(0, i as int);
            let ghost next = m.subrange(0, i + 1);
            assert(next.drop_last() =~= prev);
            assert(next.last() == self.inner.layers@[i as int].model());
            assert(self.inner.layers@[i as int].wf());
            let mut j: usize = 0;
            while j < self.inner.layers[i].layer.entries.len()
                invariant
                    self.wf(),
                    m == self.model(),
                    i < self.inner.layers@.len(),
                    prev == m.subrange(0, i as int),
                    j <= self.inner.layers@[i as int].layer.entries@.len(),
                    result.wf(),
                    forall|q: Seq<Seq<u8>>| result.map().dom().contains(q) <==> (
                        if exists|b: int| 0 <= b < j && (#[trigger] self.inner.layers@[i as int].layer.pairs()[b]).0 == q {
                            self.inner.layers@[i as int].layer.map()[q] is Children
                        } else {
                            visible(prev, q)
                        }),
                decreases self.inner.layers@[i as int].layer.entries@.len() - j,
            {
                let ghost qm = self.inner.layers@[i as int].layer.pairs()[j as int].0;
                proof {
                    self.inner.layers@[i as int].layer.lemma_map_at(j as int);
                }
                match &self.inner.layers[i].layer.entries[j].1 {
                    PrefixMap::Children(_) => {
                        let q = self.inner.layers[i].layer.entries[j].0.duplicate();
                        result.insert(q, true);
                    },
                    PrefixMap::DeletedPrefixMap => {
                        result.remove(&self.inner.layers[i].layer.entries[j].0);
                    },
                }
                proof {
                    assert forall|q: Seq<Seq<u8>>| result.map().dom().contains(q) <==> (
                        if exists|b: int| 0 <= b < j + 1 && (#[trigger] self.inner.layers@[i as int].layer.pairs()[b]).0 == q {
                            self.inner.layers@[i as int].layer.map()[q] is Children
                        } else {
                            visible(prev, q)
                        }) by {
                        if q != qm {
                            if exists|b: int| 0 <= b < j + 1 && (#[trigger] self.inner.layers@[i as int].layer.pairs()[b]).0 == q {
                                let b = choose|b: int| 0 <= b < j + 1 && (#[trigger] self.inner.layers@[i as int].layer.pairs()[b]).0 == q;
                                assert(b != j);
                            }
                        } else {
                            assert(self.inner.layers@[i as int].layer.pairs()[j as int].0 == q);
                        }
                    }
                }
                j = j + 1;
            }
            proof {
                assert forall|q: Seq<Seq<u8>>| result.map().dom().contains(q) <==> visible(next, q) by {
                    self.inner.layers@[i as int].layer.lemma_map_contains(q);
                }
                assert(result.map().dom() =~= Set::new(|q: Seq<Seq<u8>>| visible(m.subrange(0, i + 1), q)));
            }
            i = i + 1;
        }
        assert(m.subrange(0, i as int) =~= m);
        let mut r: Vec<Vec<Vec<u8>>> = Vec::new();
        let mut k: usize = 0;
        while k < result.entries.len()
            invariant
                result.wf(),
                k <= result.pairs().len(),
                result.pairs().len() == result.entries@.len(),
                r@.len() == k,
                forall|a: int| 0 <= a < k ==> #[trigger] r.model()[a] == result.pairs()[a].0,
            decreases result.entries.len() - k,
        {
            let ghost before = r.model();
            r.push(result.entries[k].0.duplicate());
            proof {
                assert(r.model() =~= before.push(r@[k as int].model()));
            }
            k = k + 1;
        }
        proof {
            assert forall|q: Seq<Seq<u8>>| r.model().contains(q) <==> visible(m, q) by {
                result.lemma_map_contains(q);
                if r.model().contains(q) {
                    let a = choose|a: int| 0 <= a < r.model().len() && r.model()[a] == q;
                    assert(result.pairs()[a].0 == q);
                }
                if result.map().contains_key(q) {
                    let a = choose|a: int| 0 <= a < result.pairs().len() && (#[trigger] result.pairs()[a]).0 == q;
                    assert(r.model()[a] == q);
                }
            }
        }
        r
    }
}

impl Store {
    /// Folds the top layer into the layer below it; a lone layer is dropped.
    pub fn combine_down(&mut self)
        requires
            old(self).wf(),
        ensures
            final(self).wf(),
            final(self).model() == combine_down_layers(old(self).model()),
            final(self).inner.listeners == old(self).inner.listeners,
    {
        let ghost before = self.model();
        if self.inner.layers.len() == 0 {
            return;
        }
        let top = self.take_top();
        if self.inner.layers.len() == 0 {
            assert(self.model() =~= Seq::<LayerModel>::empty());
            return;
        }
        let mut next = self.take_top();
        let ghost n0 = next.model();
        let ghost t0 = top.model();
        let mut j: usize = 0;
        proof {
            assert(n0.layer =~= Map::new(
                |p: Seq<Seq<u8>>| n0.layer.contains_key(p) || exists|b: int| 0 <= b < 0 && (#[trigger] top.layer.pairs()[b]).0 == p,
                |p: Seq<Seq<u8>>| if exists|b: int| 0 <= b < 0 && (#[trigger] top.layer.pairs()[b]).0 == p {
                    combine_entry(n0.layer, p, t0.layer[p])
                } else {
                    n0.layer[p]
                },
            ));
        }
        while j < top.layer.entries.len()
            invariant
                top.wf(),
                next.wf(),
                t0 == top.model(),
                n0.dirty == next.model().dirty,
                j <= top.layer.pairs().len(),
                top.layer.pairs().len() == top.layer.entries@.len(),
                next.model().layer == Map::new(
                    |p: Seq<Seq<u8>>| n0.layer.contains_key(p) || exists|b: int| 0 <= b < j && (#[trigger] top.layer.pairs()[b]).0 == p,
                    |p: Seq<Seq<u8>>| if exists|b: int| 0 <= b < j && (#[trigger] top.layer.pairs()[b]).0 == p {
                        combine_entry(n0.layer, p, t0.layer[p])
                    } else {
                        n0.layer[p]
                    },
                ),
            decreases top.layer.entries.len() - j,
        {
            let ghost pm = top.layer.pairs()[j as int].0;
            proof {
                top.layer.lemma_map_at(j as int);
                assert(top.layer.entries@[j as int].1.wf());
                assert forall|b: int| 0 <= b < j implies (#[trigger] top.layer.pairs()[b]).0 != pm by {
                    <Vec<Vec<u8>> as KeyOrder>::lemma_irreflexive(pm);
                }
            }
            let ghost cur = next.model().layer;
            let newv = match &top.layer.entries[j].1 {
                PrefixMap::Children(c) => match next.entries_of(&top.layer.entries[j].0) {
                    Some(PrefixMap::Children(nc)) => {
                        let mut nc = nc;
                        nc.extend_from(c);
                        PrefixMap::Children(nc)
                    },
                    _ => PrefixMap::Children(c.duplicate()),
                },
                PrefixMap::DeletedPrefixMap => PrefixMap::DeletedPrefixMap,
            };
            assert(newv.model() == combine_entry(n0.layer, pm, t0.layer[pm]));
            let p = top.layer.entries[j].0.duplicate();
            next.put(p, newv);
            proof {
                let target = Map::new(
                    |p: Seq<Seq<u8>>| n0.layer.contains_key(p) || exists|b: int| 0 <= b < j + 1 && (#[trigger] top.layer.pairs()[b]).0 == p,
                    |p: Seq<Seq<u8>>| if exists|b: int| 0 <= b < j + 1 && (#[trigger] top.layer.pairs()[b]).0 == p {
                        combine_entry(n0.layer, p, t0.layer[p])
                    } else {
                        n0.layer[p]
                    },
                );
                assert forall|q: Seq<Seq<u8>>| #[trigger] next.model().layer.contains_key(q) == target.contains_key(q)
                    && (next.model().layer.contains_key(q) ==> next.model().layer[q] == target[q]) by {
                    assert(top.layer.pairs()[j as int].0 == pm);
                    if q != pm {
                        if exists|b: int| 0 <= b < j + 1 && (#[trigger] top.layer.pairs()[b]).0 == q {
                            let b = choose|b: int| 0 <= b < j + 1 && (#[trigger] top.layer.pairs()[b]).0 == q;
                            assert(b != j);
                        }
                    }
                }
                assert(next.model().layer =~= target);
            }
            j = j + 1;
        }
        proof {
            assert forall|q: Seq<Seq<u8>>| (exists|b: int| 0 <= b < j && (#[trigger] top.layer.pairs()[b]).0 == q)
                == t0.layer.contains_key(q) by {
                top.layer.lemma_map_contains(q);
            }
            assert(next.model().layer =~= combined(n0, t0).layer);
        }
        let mut d: usize = 0;
        while d < top.dirty.len()
            invariant
                top.wf(),
                next.wf(),
                t0 == top.model(),
                next.model().layer == combined(n0, t0).layer,
                d <= top.dirty@.len(),
                next.model().dirty == n0.dirty.union(top.dirty.model().subrange(0, d as int).to_set()),
            decreases top.dirty.len() - d,
        {
            next.mark_dirty(&top.dirty[d]);
            proof {
                assert(top.dirty.model()[d as int] == top.dirty@[d as int].model());
                assert(top.dirty.model().subrange(0, d + 1) =~= top.dirty.model().subrange(0, d as int).push(top.dirty.model()[d as int]));
                assert(next.model().dirty =~= n0.dirty.union(top.dirty.model().subrange(0, d + 1).to_set()));
            }
            d = d + 1;
        }
        assert(top.dirty.model().subrange(0, d as int) =~= top.dirty.model());
        assert(next.model().dirty =~= combined(n0, t0).dirty);
        let ghost mid = self.model();
        self.put_top(next);
        assert(self.model() =~= combine_down_layers(before));
    }

    /// Applies the mutations in order to the top layer, marking each prefix changed.
    pub fn mutate(&mut self, mutations: &Vec<Mutation>)
        requires
            old(self).wf(),
            old(self).model().len() > 0,
        ensures
            final(self).wf(),
            final(self).model() == with_top(old(self).model(), apply_mutations(old(self).model().last(), mutations@)),
            final(self).inner.listeners == old(self).inner.listeners,
    {
        let ghost before = self.model();
        let mut top = self.take_top();
        let ghost t0 = top.model();
        let mut i: usize = 0;
        assert(mutations@.subrange(0, 0) =~= Seq::<Mutation>::empty());
        while i < mutations.len()
            invariant
                top.wf(),
                i <= mutations@.len(),
                top.model() == apply_mutations(t0, mutations@.subrange(0, i as int)),
            decreases mutations.len() - i,
        {
            let mutation = &mutations[i];
            let ghost l0 = top.model();
            let ghost pm = mutation.prefix.model();
            match &mutation.entries {
                PrefixMap::DeletedPrefixMap => {
                    let p = mutation.prefix.duplicate();
                    top.put(p, PrefixMap::DeletedPrefixMap);
                },
                PrefixMap::Children(children) => {
                    let mut map = match top.entries_of(&mutation.prefix) {
                        Some(m) => m,
                        None => PrefixMap::new(),
                    };
                    let ghost start = map.model();
                    let mut k: usize = 0;
                    assert(children.pairs().subrange(0, 0) =~= Seq::<(Seq<u8>, Option<Seq<u8>>)>::empty());
                    while k < children.entries.len()
                        invariant
                            map.wf(),
                            k <= children.pairs().len(),
                            children.pairs().len() == children.entries@.len(),
                            map.model() == insert_all(start, children.pairs().subrange(0, k as int)),
                        decreases children.entries.len() - k,
                    {
                        let key = children.entries[k].0.duplicate();
                        let value = children.entries[k].1.duplicate();
                        map.insert(key, value);
                        proof {
                            let ps = children.pairs();
                            assert(ps.subrange(0, k + 1).drop_last() =~= ps.subrange(0, k as int));
                            assert(ps.subrange(0, k + 1).last() == ps[k as int]);
                        }
                        k = k + 1;
                    }
                    assert(children.pairs().subrange(0, k as int) =~= children.pairs());
                    let p = mutation.prefix.duplicate();
                    top.put(p, map);
                },
            }
            top.mark_dirty(&mutation.prefix);
            proof {
                let ms = mutations@.subrange(0, i + 1);
                assert(ms.drop_last() =~= mutations@.subrange(0, i as int));
                assert(ms.last() == mutations@[i as int]);
                assert(top.model().layer =~= apply_mutations(t0, ms).layer);
                assert(top.model().dirty =~= apply_mutations(t0, ms).dirty);
            }
            i = i + 1;
        }
        assert(mutations@.subrange(0, i as int) =~= mutations@);
        self.put_top(top);
        assert(self.model() =~= with_top(before, apply_mutations(t0, mutations@)));
    }

    /// The top layer's entries, one mutation per prefix, in prefix order.
    pub fn top_layer_mutations(&self) -> (r: Vec<Mutation>)
        requires
            self.wf(),
            self.inner.layers@.len() > 0,
        ensures
            snapshot_of(r@, self.inner.layers@.last()),
    {
        let n = self.inner.layers.len();
        let top = &self.inner.layers[n - 1];
        assert(top.wf());
        let mut r: Vec<Mutation> = Vec::new();
        let mut i: usize = 0;
        while i < self.inner.layers[n - 1].layer.entries.len()
            invariant
                n == self.inner.layers@.len(),
                n > 0,
                self.wf(),
                i <= self.inner.layers@[n - 1].layer.entries@.len(),
                r@.len() == i,
                forall|a: int| 0 <= a < i ==> {
                    &&& (#[trigger] r@[a]).prefix.model() == self.inner.layers@[n - 1].layer.pairs()[a].0
                    &&& r@[a].entries.model() == self.inner.layers@[n - 1].layer.pairs()[a].1
                    &&& r@[a].entries.wf()
                },
            decreases self.inner.layers@[n - 1].layer.entries@.len() - i,
        {
            assert(self.inner.layers@[n - 1].wf());
            assert(self.inner.layers@[n - 1].layer.entries@[i as int].1.wf());
            let prefix = self.inner.layers[n - 1].layer.entries[i].0.duplicate();
            let entries = self.inner.layers[n - 1].layer.entries[i].1.copy();
            r.push(Mutation { prefix, entries });
            i = i + 1;
        }
        r
    }

    /// Clears every layer's record of changed prefixes, and returns each of
    /// those prefixes once: the ones whose listeners are to be alerted.
    pub fn notify_dirty(&mut self) -> (r: Vec<Vec<Vec<u8>>>)
        requires
            old(self).wf(),
        ensures
            final(self).wf(),
            final(self).model().len() == old(self).model().len(),
            forall|i: int| 0 <= i < final(self).model().len() ==> (#[trigger] final(self).model()[i]).layer == old(self).model()[i].layer
                && final(self).model()[i].dirty == Set::<Seq<Seq<u8>>>::empty(),
            r.model().no_duplicates(),
            r.model().to_set() == all_dirty(old(self).model()),
            final(self).inner.listeners == old(self).inner.listeners,
    {
        let ghost before = self.model();
        let mut collected = StoreLayer::new();
        let mut i: usize = 0;
        let ghost n = self.inner.layers@.len();
        while i < self.inner.layers.len()
            invariant
                self.wf(),
                collected.wf(),
                self.inner.layers@.len() == n,
                before.len() == n,
                i <= n,
                self.inner.listeners == old(self).inner.listeners,
                forall|a: int| 0 <= a < i ==> (#[trigger] self.model()[a]).layer == before[a].layer
                    && self.model()[a].dirty == Set::<Seq<Seq<u8>>>::empty(),
                forall|a: int| i <= a < n ==> #[trigger] self.model()[a] == before[a],
                collected.model().dirty == all_dirty(before.subrange(0, i as int)),
            decreases self.inner.layers.len() - i,
        {
            let ghost m = self.model();
            let ghost ls = self.inner.layers@;
            assert(self.inner.layers@[i as int].wf());
            assert(m[i as int] == before[i as int]);
            assert(m[i as int] == ls[i as int].model());
            let mut layer = self.inner.layers.remove(i);
            assert(layer.model() == before[i as int]);
            let mut d: usize = 0;
            let ghost c0 = collected.model().dirty;
            while d < layer.dirty.len()
                invariant
                    collected.wf(),
                    d <= layer.dirty@.len(),
                    collected.model().dirty == c0.union(layer.dirty.model().subrange(0, d as int).to_set()),
                decreases layer.dirty.len() - d,
            {
                collected.mark_dirty(&layer.dirty[d]);
                proof {
                    assert(layer.dirty.model()[d as int] == layer.dirty@[d as int].model());
                    assert(layer.dirty.model().subrange(0, d + 1) =~= layer.dirty.model().subrange(0, d as int).push(layer.dirty.model()[d as int]));
                    assert(collected.model().dirty =~= c0.union(layer.dirty.model().subrange(0, d + 1).to_set()));
                }
                d = d + 1;
            }
            assert(layer.dirty.model().subrange(0, d as int) =~= layer.dirty.model());
            layer.dirty = Vec::new();
            proof {
                assert(layer.dirty.model() =~= Seq::<Seq<Seq<u8>>>::empty());
                assert(layer.model().dirty =~= Set::<Seq<Seq<u8>>>::empty());
                let sub = before.subrange(0, i + 1);
                assert(sub.drop_last() =~= before.subrange(0, i as int));
                assert(sub.last() == before[i as int]);
            }
            let ghost lm = layer.model();
            self.inner.layers.insert(i, layer);
            proof {
                assert(self.inner.layers@ =~= ls.update(i as int, self.inner.layers@[i as int]));
                assert(self.model() =~= m.update(i as int, lm));
            }
            i = i + 1;
        }
        assert(before.subrange(0, i as int) =~= before);
        let mut r: Vec<Vec<Vec<u8>>> = Vec::new();
        let mut k: usize = 0;
        while k < collected.dirty.len()
            invariant
                k <= collected.dirty@.len(),
                r.model() == collected.dirty.model().subrange(0, k as int),
            decreases collected.dirty.len() - k,
        {
            let ghost rb = r.model();
            r.push(collected.dirty[k].duplicate());
            proof {
                assert(collected.dirty.model()[k as int] == collected.dirty@[k as int].model());
                assert(r.model() =~= rb.push(collected.dirty@[k as int].model()));
                assert(r.model() =~= collected.dirty.model().subrange(0, k + 1));
            }
            k = k + 1;
        }
        assert(r.model() =~= collected.dirty.model());
        r
    }

    /// Hands the answers of the listeners under `prefix` back, keeping those
    /// that answered `true` (see `ListenerMap::alert`).
    pub fn alert(&mut self, prefix: &Vec<Vec<u8>>, keep: &Vec<bool>)
        requires
            old(self).wf(),
            old(self).inner.listeners.view().contains_key(prefix.model()) ==> keep@.len() == old(self).inner.listeners.view()[prefix.model()].len(),
        ensures
            final(self).wf(),
            final(self).inner.layers == old(self).inner.layers,
            final(self).inner.listeners.view() == alerted(old(self).inner.listeners.view(), prefix.model(), keep@),
    {
        self.inner.listeners.alert(prefix, keep);
    }
}

/// `q` lies at or under `c`.
fn path_starts_with(q: &Vec<Vec<u8>>, c: &Vec<Vec<u8>>) -> (r: bool)
    ensures
        r == starts_with(q.model(), c.model()),
{
    if q.len() < c.len() {
        return false;
    }
    let mut i: usize = 0;
    while i < c.len()
        invariant
            i <= c@.len(),
            c@.len() <= q@.len(),
            q.model().subrange(0, i as int) == c.model().subrange(0, i as int),
        decreases c.len() - i,
    {
        if q[i].compare(&c[i]) != Order::Equal {
            proof {
                assert(q.model()[i as int] == q@[i as int].model());
                assert(c.model()[i as int] == c@[i as int].model());
                assert(q.model().subrange(0, c@.len() as int)[i as int] == q.model()[i as int]);
            }
            return false;
        }
        proof {
            assert(q.model()[i as int] == q@[i as int].model());
            assert(c.model()[i as int] == c@[i as int].model());
            assert(q.model().subrange(0, i + 1) =~= q.model().subrange(0, i as int).push(q.model()[i as int]));
            assert(c.model().subrange(0, i + 1) =~= c.model().subrange(0, i as int).push(c.model()[i as int]));
        }
        i = i + 1;
    }
    assert(c.model().subrange(0, i as int) =~= c.model());
    true
}

impl Default for Store {
    fn default() -> (r: Store)
        ensures
            r.wf(),
            r.model() == seq![empty_layer()],
            r.inner.listeners.view() == Map::<Seq<Seq<u8>>, Seq<u64>>::empty(),
    {
        Store::new()
    }
}

} // verus!
