//! Iteration over the entries that a stack of layers shows under one prefix.

use crate::order::{lemma_bytes_model, KeyOrder, Model};
use crate::prefix_map::PrefixMapValue;
use crate::sorted_map::{SortedMap, lemma_sorted_cons, lemma_sorted_drop_first, strictly_sorted};
use vstd::prelude::*;

verus! {

broadcast use lemma_bytes_model;

/// The entries that layers show, bottom layer first: each key holds what
/// the topmost layer holding that key says of it.
pub open spec fn merged(layers: Seq<Map<Seq<u8>, Option<Seq<u8>>>>) -> Map<Seq<u8>, Option<Seq<u8>>>
    decreases layers.len(),
{
    if layers.len() == 0 {
        Map::empty()
    } else {
        merged(layers.drop_last()).union_prefer_right(layers.last())
    }
}

/// The key-value pairs that iteration yields, first to last.
pub open spec fn yields(entries: Seq<(Vec<u8>, Vec<u8>)>) -> Seq<(Seq<u8>, Seq<u8>)> {
    entries.map_values(|e: (Vec<u8>, Vec<u8>)| (e.0@, e.1@)).reverse()
}

/// The values the layers show, in increasing key order; deleted keys are
/// skipped.
pub struct StoreIterator {
    /// The pairs still to yield, the next one last.
    pub inner: Vec<(Vec<u8>, Vec<u8>)>,
}

/// The pairs of `ps` that hold values, in order, without the deleted ones.
pub open spec fn present(ps: Seq<(Seq<u8>, Option<Seq<u8>>)>) -> Seq<(Seq<u8>, Seq<u8>)>
    decreases ps.len(),
{
    if ps.len() == 0 {
        Seq::empty()
    } else {
        match ps[0].1 {
            Some(v) => seq![(ps[0].0, v)] + present(ps.drop_first()),
            None => present(ps.drop_first()),
        }
    }
}

pub proof fn lemma_present(ps: Seq<(Seq<u8>, Option<Seq<u8>>)>)
    requires
        strictly_sorted::<Vec<u8>, Option<Seq<u8>>>(ps),
    ensures
        strictly_sorted::<Vec<u8>, Seq<u8>>(present(ps)),
        forall|k: Seq<u8>, v: Seq<u8>| present(ps).contains((k, v)) <==> exists|i: int| 0 <= i < ps.len() && (#[trigger] ps[i]) == (k, Some(v)),
        forall|i: int| 0 <= i < present(ps).len() ==> exists|j: int| 0 <= j < ps.len() && (#[trigger] ps[j]).0 == (#[trigger] present(ps)[i]).0,
    decreases ps.len(),
{
    if ps.len() > 0 {
        let t = ps.drop_first();
        lemma_sorted_drop_first::<Vec<u8>, Option<Seq<u8>>>(ps);
        lemma_present(t);
        let pt = present(t);
        let p = present(ps);
        assert forall|i: int| 0 <= i < pt.len() implies Vec::<u8>::less(ps[0].0, #[trigger] pt[i].0) by {
            let j = choose|j: int| 0 <= j < t.len() && (#[trigger] t[j]).0 == pt[i].0;
            assert(t[j] == ps[j + 1]);
        }
        match ps[0].1 {
            Some(v) => {
                assert(p == seq![(ps[0].0, v)] + pt);
                lemma_sorted_cons::<Vec<u8>, Seq<u8>>((ps[0].0, v), pt);
                assert forall|i: int| 0 <= i < p.len() implies exists|j: int| 0 <= j < ps.len() && (#[trigger] ps[j]).0 == (#[trigger] p[i]).0 by {
                    if i == 0 {
                        assert(ps[0].0 == p[0].0);
                    } else {
                        assert(p[i] == pt[i - 1]);
                        let j = choose|j: int| 0 <= j < t.len() && (#[trigger] t[j]).0 == pt[i - 1].0;
                        assert(ps[j + 1] == t[j]);
                    }
                }
                assert forall|k: Seq<u8>, w: Seq<u8>| p.contains((k, w)) <==> exists|i: int| 0 <= i < ps.len() && (#[trigger] ps[i]) == (k, Some(w)) by {
                    if p.contains((k, w)) {
                        let a = choose|a: int| 0 <= a < p.len() && p[a] == (k, w);
                        if a == 0 {
                            assert(ps[0] == (k, Some(w)));
                        } else {
                            assert(pt[a - 1] == (k, w));
                            assert(pt.contains((k, w)));
                            let i = choose|i: int| 0 <= i < t.len() && (#[trigger] t[i]) == (k, Some(w));
                            assert(ps[i + 1] == t[i]);
                        }
                    }
                    if exists|i: int| 0 <= i < ps.len() && (#[trigger] ps[i]) == (k, Some(w)) {
                        let i = choose|i: int| 0 <= i < ps.len() && (#[trigger] ps[i]) == (k, Some(w));
                        if i == 0 {
                            assert(p[0] == (k, w));
                        } else {
                            assert(t[i - 1] == ps[i]);
                            assert(pt.contains((k, w)));
                            let a = choose|a: int| 0 <= a < pt.len() && pt[a] == (k, w);
                            assert(p[a + 1] == (k, w));
                        }
                    }
                }
            },
            None => {
                assert(p == pt);
                assert forall|i: int| 0 <= i < p.len() implies exists|j: int| 0 <= j < ps.len() && (#[trigger] ps[j]).0 == (#[trigger] p[i]).0 by {
                    let j = choose|j: int| 0 <= j < t.len() && (#[trigger] t[j]).0 == pt[i].0;
                    assert(ps[j + 1] == t[j]);
                }
                assert forall|k: Seq<u8>, w: Seq<u8>| p.contains((k, w)) <==> exists|i: int| 0 <= i < ps.len() && (#[trigger] ps[i]) == (k, Some(w)) by {
                    if p.contains((k, w)) {
                        let i = choose|i: int| 0 <= i < t.len() && (#[trigger] t[i]) == (k, Some(w));
                        assert(ps[i + 1] == t[i]);
                    }
                    if exists|i: int| 0 <= i < ps.len() && (#[trigger] ps[i]) == (k, Some(w)) {
                        let i = choose|i: int| 0 <= i < ps.len() && (#[trigger] ps[i]) == (k, Some(w));
                        assert(i != 0);
                        assert(t[i - 1] == ps[i]);
                    }
                }
            },
        }
    }
}

/// Merges the layers, bottom layer first, into one map.
fn merge_layers(layers: &Vec<SortedMap<Vec<u8>, PrefixMapValue>>) -> (acc: SortedMap<Vec<u8>, PrefixMapValue>)
    ensures
        acc.wf(),
        acc.map() == merged(layers@.map_values(|l: SortedMap<Vec<u8>, PrefixMapValue>| l.map())),
{
    let ghost ms = layers@.map_values(|l: SortedMap<Vec<u8>, PrefixMapValue>| l.map());
    let mut acc: SortedMap<Vec<u8>, PrefixMapValue> = SortedMap::new();
    let mut i: usize = 0;
    assert(ms.subrange(0, 0) =~= Seq::<Map<Seq<u8>, Option<Seq<u8>>>>::empty());
    while i < layers.len()
        invariant
            i <= layers@.len(),
            ms == layers@.map_values(|l: SortedMap<Vec<u8>, PrefixMapValue>| l.map()),
            acc.wf(),
            acc.map() == merged(ms.subrange(0, i as int)),
        decreases layers.len() - i,
    {
        acc.extend_from(&layers[i]);
        proof {
            let sub = ms.subrange(0, i + 1);
            assert(sub.drop_last() =~= ms.subrange(0, i as int));
            assert(sub.last() == layers@[i as int].map());
        }
        i = i + 1;
    }
    assert(ms.subrange(0, i as int) =~= ms);
    acc
}

/// The valued entries of `acc`, last first.
fn valued_entries(acc: &SortedMap<Vec<u8>, PrefixMapValue>) -> (inner: Vec<(Vec<u8>, Vec<u8>)>)
    ensures
        yields(inner@) == present(acc.pairs()),
{
    let ghost ps = acc.pairs();
    let mut inner: Vec<(Vec<u8>, Vec<u8>)> = Vec::new();
    let mut j: usize = acc.entries.len();
    assert(ps.subrange(j as int, ps.len() as int) =~= Seq::<(Seq<u8>, Option<Seq<u8>>)>::empty());
    assert(yields(inner@) =~= Seq::<(Seq<u8>, Seq<u8>)>::empty());
    while j > 0
        invariant
            j <= acc.entries@.len(),
            ps == acc.pairs(),
            ps.len() == acc.entries@.len(),
            yields(inner@) == present(ps.subrange(j as int, ps.len() as int)),
        decreases j,
    {
        let ghost before = inner@;
        let c = j - 1;
        let ghost sub = ps.subrange(c as int, ps.len() as int);
        assert(sub.drop_first() =~= ps.subrange(j as int, ps.len() as int));
        assert(sub[0] == ps[c as int]);
        assert(ps[c as int].0 == acc.entries@[c as int].0@);
        if let PrefixMapValue::Value(v) = &acc.entries[c].1 {
            let k = acc.entries[c].0.duplicate();
            let vv = v.clone();
            assert(vv@ =~= v@);
            inner.push((k, vv));
            assert(yields(inner@) =~= seq![(ps[c as int].0, v@)] + yields(before));
        }
        j = c;
    }
    assert(ps.subrange(0, ps.len() as int) =~= ps);
    inner
}

impl StoreIterator {
    /// The pairs still to yield, in order.
    pub open spec fn view(&self) -> Seq<(Seq<u8>, Seq<u8>)> {
        yields(self.inner@)
    }

    /// Merges the layers, bottom layer first: the topmost layer that holds a
    /// key decides, and deleted keys are skipped.
    pub fn new(layers: &Vec<SortedMap<Vec<u8>, PrefixMapValue>>) -> (r: StoreIterator)
        ensures
            strictly_sorted::<Vec<u8>, Seq<u8>>(r.view()),
            forall|k: Seq<u8>, v: Seq<u8>| r.view().contains((k, v)) <==> merged(
                layers@.map_values(|l: SortedMap<Vec<u8>, PrefixMapValue>| l.map()),
            ).get(k) == Some(Some(v)),
    {
        let acc = merge_layers(layers);
        let inner = valued_entries(&acc);
        let r = StoreIterator { inner };
        proof {
            let ps = acc.pairs();
            lemma_present(ps);
            assert forall|k: Seq<u8>, v: Seq<u8>| r.view().contains((k, v)) <==> acc.map().get(k) == Some(Some(v)) by {
                acc.lemma_map_contains(k);
                if exists|i: int| 0 <= i < ps.len() && (#[trigger] ps[i]) == (k, Some(v)) {
                    let i = choose|i: int| 0 <= i < ps.len() && (#[trigger] ps[i]) == (k, Some(v));
                    acc.lemma_map_at(i);
                }
                if acc.map().get(k) == Some(Some(v)) {
                    let i = choose|i: int| 0 <= i < ps.len() && (#[trigger] ps[i]).0 == k;
                    acc.lemma_map_at(i);
                    assert(ps[i] == (k, Some(v)));
                }
            }
        }
        r
    }

    /// The next pair, in increasing key order.
    pub fn next(&mut self) -> (r: Option<(Vec<u8>, Vec<u8>)>)
        ensures
            old(self).view().len() == 0 ==> r is None && final(self).view() == old(self).view(),
            old(self).view().len() > 0 ==> (r matches Some(p) && (p.0@, p.1@) == old(self).view()[0]
                && final(self).view() == old(self).view().drop_first()),
    {
        let ghost before = self.inner@;
        let r = self.inner.pop();
        proof {
            if before.len() > 0 {
                assert(self.inner@ =~= before.drop_last());
                assert(yields(before.drop_last()) =~= yields(before).drop_first());
            }
        }
        r
    }

    /// All the pairs still to yield, in order.
    pub fn into_vec(self) -> (r: Vec<(Vec<u8>, Vec<u8>)>)
        ensures
            r@.map_values(|e: (Vec<u8>, Vec<u8>)| (e.0@, e.1@)) == self.view(),
    {
        let mut it = self;
        let ghost all = it.view();
        let mut r: Vec<(Vec<u8>, Vec<u8>)> = Vec::new();
        while it.inner.len() > 0
            invariant
                r@.map_values(|e: (Vec<u8>, Vec<u8>)| (e.0@, e.1@)) + it.view() == all,
            decreases it.inner@.len(),
        {
            let ghost rb = r@.map_values(|e: (Vec<u8>, Vec<u8>)| (e.0@, e.1@));
            let ghost ib = it.view();
            match it.next() {
                Some(p) => {
                    r.push(p);
                    proof {
                        assert(r@.map_values(|e: (Vec<u8>, Vec<u8>)| (e.0@, e.1@)) =~= rb.push(ib[0]));
                        assert(rb.push(ib[0]) + ib.drop_first() =~= rb + ib);
                    }
                },
                None => {},
            }
        }
        assert(it.view() =~= Seq::<(Seq<u8>, Seq<u8>)>::empty());
        assert(r@.map_values(|e: (Vec<u8>, Vec<u8>)| (e.0@, e.1@)) + it.view() =~= r@.map_values(|e: (Vec<u8>, Vec<u8>)| (e.0@, e.1@)));
        r
    }
}

} // verus!
