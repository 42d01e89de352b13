//! Clients converge to the server: the mutations the server sends for a
//! change, applied to a layer equal to the server's, read the same as the
//! server's layer with that change folded in.

use crate::order::{KeyOrder, Model};
use crate::prefix_map::{prefix_map_get, prefix_map_insert, PrefixMap, PrefixMapModel};
use crate::sorted_map::pairs_to_map;
use crate::store::{
    apply_mutation, apply_mutations, combine_down_layers, combined, entry_or_empty, insert_all, layer_says, lookup,
    snapshot_of, LayerModel, Mutation, StoreLayer,
};
use vstd::prelude::*;

verus! {

/// What a single layer reads under `prefix` and `key`.
pub open spec fn reads(l: LayerModel, prefix: Seq<Seq<u8>>, key: Seq<u8>) -> Option<Seq<u8>> {
    match layer_says(l, prefix, key) {
        Some(v) => v,
        None => None,
    }
}

/// What `prefix` holds after one mutation for it, given what it held in `l`.
pub open spec fn mutated_entry(l: Map<Seq<Seq<u8>>, PrefixMapModel>, m: Mutation) -> PrefixMapModel {
    match m.entries {
        PrefixMap::DeletedPrefixMap => PrefixMapModel::Deleted,
        PrefixMap::Children(c) => insert_all(entry_or_empty(l, m.prefix.model()), c.pairs()),
    }
}

/// With distinct prefixes, a prefix that no mutation names keeps what it
/// held, and one that a mutation names holds what that mutation made of it.
proof fn lemma_apply_mutations_at(l: LayerModel, ms: Seq<Mutation>, p: Seq<Seq<u8>>)
    requires
        forall|i: int, j: int| 0 <= i < j < ms.len() ==> (#[trigger] ms[i]).prefix.model() != (#[trigger] ms[j]).prefix.model(),
    ensures
        (forall|i: int| 0 <= i < ms.len() ==> (#[trigger] ms[i]).prefix.model() != p) ==> {
            &&& apply_mutations(l, ms).layer.contains_key(p) == l.layer.contains_key(p)
            &&& l.layer.contains_key(p) ==> apply_mutations(l, ms).layer[p] == l.layer[p]
        },
        forall|i: int| 0 <= i < ms.len() && (#[trigger] ms[i]).prefix.model() == p ==> {
            &&& apply_mutations(l, ms).layer.contains_key(p)
            &&& apply_mutations(l, ms).layer[p] == mutated_entry(l.layer, ms[i])
        },
    decreases ms.len(),
{
    if ms.len() > 0 {
        let init = ms.drop_last();
        assert forall|i: int, j: int| 0 <= i < j < init.len() implies (#[trigger] init[i]).prefix.model() != (#[trigger] init[j]).prefix.model() by {
            assert(init[i] == ms[i] && init[j] == ms[j]);
        }
        lemma_apply_mutations_at(l, init, p);
        let m = ms.last();
        let prev = apply_mutations(l, init);
        assert(apply_mutations(l, ms) == apply_mutation(prev, m));
        if m.prefix.model() == p {
            assert forall|i: int| 0 <= i < init.len() implies (#[trigger] init[i]).prefix.model() != p by {
                assert(init[i] == ms[i]);
                assert(ms[i].prefix.model() != ms[ms.len() - 1].prefix.model());
            }
            assert(entry_or_empty(prev.layer, p) == entry_or_empty(l.layer, p));
            assert forall|i: int| 0 <= i < ms.len() && (#[trigger] ms[i]).prefix.model() == p implies {
                &&& apply_mutations(l, ms).layer.contains_key(p)
                &&& apply_mutations(l, ms).layer[p] == mutated_entry(l.layer, ms[i])
            } by {
                if i < ms.len() - 1 {
                    assert(ms[i].prefix.model() != ms[ms.len() - 1].prefix.model());
                }
            }
        } else {
            assert forall|i: int| 0 <= i < ms.len() && (#[trigger] ms[i]).prefix.model() == p implies {
                &&& apply_mutations(l, ms).layer.contains_key(p)
                &&& apply_mutations(l, ms).layer[p] == mutated_entry(l.layer, ms[i])
            } by {
                assert(i < ms.len() - 1);
                assert(init[i] == ms[i]);
            }
            if forall|i: int| 0 <= i < ms.len() ==> (#[trigger] ms[i]).prefix.model() != p {
                assert forall|i: int| 0 <= i < init.len() implies (#[trigger] init[i]).prefix.model() != p by {
                    assert(init[i] == ms[i]);
                }
            }
        }
    }
}

/// Storing pairs into a map of children stores each of them, the later
/// winning.
proof fn lemma_insert_all_into_children(n: Map<Seq<u8>, Option<Seq<u8>>>, pairs: Seq<(Seq<u8>, Option<Seq<u8>>)>)
    ensures
        insert_all(PrefixMapModel::Children(n), pairs) == PrefixMapModel::Children(n.union_prefer_right(pairs_to_map(pairs))),
    decreases pairs.len(),
{
    if pairs.len() == 0 {
        assert(pairs_to_map(pairs) == Map::<Seq<u8>, Option<Seq<u8>>>::empty());
        assert(n.union_prefer_right(pairs_to_map(pairs)) =~= n);
    } else {
        lemma_insert_all_into_children(n, pairs.drop_last());
        assert(n.union_prefer_right(pairs_to_map(pairs)) =~= n.union_prefer_right(pairs_to_map(pairs.drop_last())).insert(
            pairs.last().0,
            pairs.last().1,
        ));
    }
}

/// A value read from what a prefix map says: the value, or nothing.
pub open spec fn flat(o: Option<Option<Seq<u8>>>) -> Option<Seq<u8>> {
    match o {
        Some(v) => v,
        None => None,
    }
}

/// Storing pairs into a deleted prefix reads, key by key, as the pairs do.
proof fn lemma_insert_all_into_deleted(pairs: Seq<(Seq<u8>, Option<Seq<u8>>)>, key: Seq<u8>)
    ensures
        flat(prefix_map_get(insert_all(PrefixMapModel::Deleted, pairs), key)) == flat(
            if pairs_to_map(pairs).contains_key(key) {
                Some(pairs_to_map(pairs)[key])
            } else {
                None
            },
        ),
    decreases pairs.len(),
{
    if pairs.len() > 0 {
        lemma_insert_all_into_deleted(pairs.drop_last(), key);
        let prev = insert_all(PrefixMapModel::Deleted, pairs.drop_last());
        let (k, v) = pairs.last();
        assert(insert_all(PrefixMapModel::Deleted, pairs) == prefix_map_insert(prev, k, v));
        if key != k {
            match prev {
                PrefixMapModel::Deleted => {
                    if v is Some {
                        assert(prefix_map_insert(prev, k, v) == PrefixMapModel::Children(Map::empty().insert(k, v)));
                    }
                },
                PrefixMapModel::Children(x) => {},
            }
        }
    }
}

/// The mutations that list a layer `top`, applied to a layer `base`, read
/// everywhere as `top` folded into `base` does: a client whose confirmed
/// layer equals the server's reads what the server reads once both have
/// taken the same change.
pub proof fn lemma_mutations_match_fold(base: LayerModel, top: StoreLayer, ms: Seq<Mutation>, prefix: Seq<Seq<u8>>, key: Seq<u8>)
    requires
        top.wf(),
        snapshot_of(ms, top),
    ensures
        reads(apply_mutations(base, ms), prefix, key) == reads(combined(base, top.model()), prefix, key),
        lookup(seq![apply_mutations(base, ms)], prefix, key) == lookup(
            combine_down_layers(seq![base, top.model()]),
            prefix,
            key,
        ),
{
    let ps = top.layer.pairs();
    assert forall|i: int, j: int| 0 <= i < j < ms.len() implies (#[trigger] ms[i]).prefix.model() != (#[trigger] ms[j]).prefix.model() by {
        assert(<Vec<Vec<u8>> as KeyOrder>::less(ps[i].0, ps[j].0));
        <Vec<Vec<u8>> as KeyOrder>::lemma_irreflexive(ps[i].0);
    }
    lemma_apply_mutations_at(base, ms, prefix);
    let after = apply_mutations(base, ms);
    let c = combined(base, top.model());
    top.layer.lemma_map_contains(prefix);
    if top.model().layer.contains_key(prefix) {
        let i = choose|i: int| 0 <= i < ps.len() && (#[trigger] ps[i]).0 == prefix;
        top.layer.lemma_map_at(i);
        assert(ms[i].prefix.model() == prefix);
        assert(after.layer[prefix] == mutated_entry(base.layer, ms[i]));
        let t = top.model().layer[prefix];
        assert(ms[i].entries.model() == t);
        match ms[i].entries {
            PrefixMap::DeletedPrefixMap => {
                assert(c.layer[prefix] == PrefixMapModel::Deleted);
            },
            PrefixMap::Children(cm) => {
                let cp = cm.pairs();
                assert(t == PrefixMapModel::Children(cm.map()));
                let e = entry_or_empty(base.layer, prefix);
                match e {
                    PrefixMapModel::Children(n) => {
                        lemma_insert_all_into_children(n, cp);
                        if base.layer.contains_key(prefix) {
                            assert(c.layer[prefix] == PrefixMapModel::Children(n.union_prefer_right(cm.map())));
                        } else {
                            assert(n == Map::<Seq<u8>, Option<Seq<u8>>>::empty());
                            assert(n.union_prefer_right(cm.map()) =~= cm.map());
                            assert(c.layer[prefix] == PrefixMapModel::Children(cm.map()));
                        }
                    },
                    PrefixMapModel::Deleted => {
                        lemma_insert_all_into_deleted(cp, key);
                        assert(c.layer[prefix] == PrefixMapModel::Children(cm.map()));
                    },
                }
            },
        }
    } else {
        assert forall|j: int| 0 <= j < ms.len() implies (#[trigger] ms[j]).prefix.model() != prefix by {
            assert(ms[j].prefix.model() == ps[j].0);
        }
        if base.layer.contains_key(prefix) {
            assert(c.layer[prefix] == base.layer[prefix]);
        }
    }
    let one = seq![after];
    assert(one.last() == after);
    assert(one.drop_last() =~= Seq::<LayerModel>::empty());
    let two = seq![base, top.model()];
    let folded = combine_down_layers(two);
    assert(folded =~= seq![c]);
    assert(folded.drop_last() =~= Seq::<LayerModel>::empty());
    assert(folded.last() == c);
    assert(lookup(Seq::<LayerModel>::empty(), prefix, key) == None::<Seq<u8>>);
    assert(lookup(one, prefix, key) == reads(after, prefix, key));
    assert(lookup(folded, prefix, key) == reads(c, prefix, key));
}

} // verus!
