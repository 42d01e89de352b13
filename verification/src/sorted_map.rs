//! A map kept as a vector of entries in strictly increasing key order.

use crate::order::{KeyOrder, Model, Order};
use vstd::prelude::*;

verus! {

/// Entries are kept sorted by key, with no key twice (see `wf`).
#[derive(Debug)]
pub struct SortedMap<K, V> {
    pub entries: Vec<(K, V)>,
}

/// The entries, in order, as pairs of models.
pub open spec fn entry_models<K: Model, V: Model>(entries: Seq<(K, V)>) -> Seq<(K::M, V::M)> {
    entries.map_values(|e: (K, V)| (e.0.model(), e.1.model()))
}

/// Keys strictly increase along the sequence.
pub open spec fn strictly_sorted<K: KeyOrder, V>(s: Seq<(K::M, V)>) -> bool {
    forall|i: int, j: int| 0 <= i < j < s.len() ==> K::less(#[trigger] s[i].0, #[trigger] s[j].0)
}

/// The map that a sequence of pairs denotes, the last pair with a key winning.
pub open spec fn pairs_to_map<A, B>(s: Seq<(A, B)>) -> Map<A, B>
    decreases s.len(),
{
    if s.len() == 0 {
        Map::empty()
    } else {
        pairs_to_map(s.drop_last()).insert(s.last().0, s.last().1)
    }
}

pub proof fn lemma_pairs_to_map_contains<A, B>(s: Seq<(A, B)>, k: A)
    ensures
        pairs_to_map(s).contains_key(k) <==> exists|i: int| 0 <= i < s.len() && (#[trigger] s[i]).0 == k,
    decreases s.len(),
{
    if s.len() > 0 {
        lemma_pairs_to_map_contains(s.drop_last(), k);
        if pairs_to_map(s).contains_key(k) {
            if k != s.last().0 {
                let i = choose|i: int| 0 <= i < s.drop_last().len() && (#[trigger] s.drop_last()[i]).0 == k;
                assert(s[i] == s.drop_last()[i]);
            } else {
                assert(s[s.len() - 1].0 == k);
            }
        }
        if exists|i: int| 0 <= i < s.len() && (#[trigger] s[i]).0 == k {
            let i = choose|i: int| 0 <= i < s.len() && (#[trigger] s[i]).0 == k;
            if i < s.len() - 1 {
                assert(s.drop_last()[i] == s[i]);
            }
        }
    }
}

/// In a sequence with distinct keys, the pair at `i` is what the map holds.
pub proof fn lemma_pairs_to_map_at<K: KeyOrder, V>(s: Seq<(K::M, V)>, i: int)
    requires
        strictly_sorted::<K, V>(s),
        0 <= i < s.len(),
    ensures
        pairs_to_map(s).contains_key(s[i].0),
        pairs_to_map(s)[s[i].0] == s[i].1,
    decreases s.len(),
{
    if i == s.len() - 1 {
    } else {
        let t = s.drop_last();
        assert(strictly_sorted::<K, V>(t)) by {
            assert forall|a: int, b: int| 0 <= a < b < t.len() implies K::less(#[trigger] t[a].0, #[trigger] t[b].0) by {
                assert(t[a] == s[a] && t[b] == s[b]);
            }
        }
        assert(t[i] == s[i]);
        lemma_pairs_to_map_at::<K, V>(t, i);
        assert(K::less(s[i].0, s[s.len() - 1].0));
        K::lemma_irreflexive(s[i].0);
    }
}

/// Dropping the first pair keeps a sequence sorted, and that pair is below
/// every other.
pub proof fn lemma_sorted_drop_first<K: KeyOrder, V>(s: Seq<(K::M, V)>)
    requires
        strictly_sorted::<K, V>(s),
        s.len() > 0,
    ensures
        strictly_sorted::<K, V>(s.drop_first()),
        forall|i: int| 0 <= i < s.drop_first().len() ==> K::less(s[0].0, #[trigger] s.drop_first()[i].0),
{
    let t = s.drop_first();
    assert forall|a: int, b: int| 0 <= a < b < t.len() implies K::less(#[trigger] t[a].0, #[trigger] t[b].0) by {
        assert(t[a] == s[a + 1] && t[b] == s[b + 1]);
    }
    assert forall|i: int| 0 <= i < t.len() implies K::less(s[0].0, #[trigger] t[i].0) by {
        assert(t[i] == s[i + 1]);
    }
}

/// A pair below every key of a sorted sequence can go in front of it.
pub proof fn lemma_sorted_cons<K: KeyOrder, V>(x: (K::M, V), s: Seq<(K::M, V)>)
    requires
        strictly_sorted::<K, V>(s),
        forall|i: int| 0 <= i < s.len() ==> K::less(x.0, #[trigger] s[i].0),
    ensures
        strictly_sorted::<K, V>(seq![x] + s),
{
    let p = seq![x] + s;
    assert forall|a: int, b: int| 0 <= a < b < p.len() implies K::less(#[trigger] p[a].0, #[trigger] p[b].0) by {
        if a == 0 {
            assert(p[b] == s[b - 1]);
        } else {
            assert(p[a] == s[a - 1] && p[b] == s[b - 1]);
        }
    }
}

impl<K: KeyOrder, V: Model> SortedMap<K, V> {
    /// The entries as pairs of models, in key order.
    pub open spec fn pairs(&self) -> Seq<(K::M, V::M)> {
        entry_models(self.entries@)
    }

    pub open spec fn wf(&self) -> bool {
        strictly_sorted::<K, V::M>(self.pairs())
    }

    /// The map from key models to value models.
    pub open spec fn map(&self) -> Map<K::M, V::M> {
        pairs_to_map(self.pairs())
    }

    pub fn new() -> (r: Self)
        ensures
            r.wf(),
            r.pairs() == Seq::<(K::M, V::M)>::empty(),
            r.map() == Map::<K::M, V::M>::empty(),
    {
        let r = SortedMap { entries: Vec::new() };
        assert(r.pairs() =~= Seq::<(K::M, V::M)>::empty());
        r
    }

    pub fn len(&self) -> (n: usize)
        ensures
            n == self.pairs().len(),
    {
        self.entries.len()
    }

    pub proof fn lemma_map_at(&self, i: int)
        requires
            self.wf(),
            0 <= i < self.pairs().len(),
        ensures
            self.map().contains_key(self.pairs()[i].0),
            self.map()[self.pairs()[i].0] == self.pairs()[i].1,
    {
        lemma_pairs_to_map_at::<K, V::M>(self.pairs(), i);
    }

    pub proof fn lemma_map_contains(&self, k: K::M)
        ensures
            self.map().contains_key(k) <==> exists|i: int|
                0 <= i < self.pairs().len() && (#[trigger] self.pairs()[i]).0 == k,
    {
        lemma_pairs_to_map_contains(self.pairs(), k);
    }

    /// Locates `k`: `Ok(i)` when the entry at `i` has key `k`, otherwise
    /// `Err(i)` where `i` is the position at which `k` would be inserted.
    pub fn find(&self, k: &K) -> (r: Result<usize, usize>)
        requires
            self.wf(),
        ensures
            match r {
                Ok(i) => i < self.pairs().len() && self.pairs()[i as int].0 == k.model(),
                Err(i) => i <= self.pairs().len()
                    && (forall|j: int| 0 <= j < i ==> K::less(#[trigger] self.pairs()[j].0, k.model()))
                    && (forall|j: int| i <= j < self.pairs().len() ==> K::less(k.model(), #[trigger] self.pairs()[j].0)),
            },
    {
        let mut i: usize = 0;
        while i < self.entries.len()
            invariant
                self.wf(),
                i <= self.pairs().len(),
                self.pairs().len() == self.entries@.len(),
                forall|j: int| 0 <= j < i ==> K::less(#[trigger] self.pairs()[j].0, k.model()),
            decreases self.entries.len() - i,
        {
            let c = k.compare(&self.entries[i].0);
            assert(self.pairs()[i as int].0 == self.entries@[i as int].0.model());
            match c {
                Order::Equal => {
                    return Ok(i);
                },
                Order::Less => {
                    proof {
                        assert forall|j: int| i <= j < self.pairs().len() implies K::less(k.model(), #[trigger] self.pairs()[j].0) by {
                            if j > i {
                                K::lemma_transitive(k.model(), self.pairs()[i as int].0, self.pairs()[j].0);
                            }
                        }
                    }
                    return Err(i);
                },
                Order::Greater => {},
            }
            i = i + 1;
        }
        Err(i)
    }

    /// Looks up the value stored under `k`.
    pub fn get(&self, k: &K) -> (r: Option<&V>)
        requires
            self.wf(),
        ensures
            match r {
                Some(v) => self.map().contains_key(k.model()) && self.map()[k.model()] == v.model(),
                None => !self.map().contains_key(k.model()),
            },
    {
        match self.find(k) {
            Ok(i) => {
                proof {
                    self.lemma_map_at(i as int);
                }
                Some(&self.entries[i].1)
            },
            Err(i) => {
                proof {
                    self.lemma_map_contains(k.model());
                    if self.map().contains_key(k.model()) {
                        let j = choose|j: int| 0 <= j < self.pairs().len() && (#[trigger] self.pairs()[j]).0 == k.model();
                        K::lemma_irreflexive(k.model());
                    }
                }
                None
            },
        }
    }

    /// Stores `v` under `k`, replacing any value stored there.
    pub fn insert(&mut self, k: K, v: V)
        requires
            old(self).wf(),
        ensures
            final(self).wf(),
            final(self).map() == old(self).map().insert(k.model(), v.model()),
            forall|i: int| 0 <= i < final(self).entries@.len() ==> #[trigger] final(self).entries@[i] == (k, v)
                || old(self).entries@.contains(final(self).entries@[i]),
    {
        let ghost km = k.model();
        let ghost vm = v.model();
        let ghost old_entries = self.entries@;
        let ghost kv = (k, v);
        match self.find(&k) {
            Ok(i) => {
                let ghost before = self.pairs();
                self.entries.set(i, (k, v));
                proof {
                    assert(self.pairs() =~= before.update(i as int, (km, vm)));
                    self.lemma_update_map(before, i as int, km, vm);
                    assert forall|j: int| 0 <= j < self.entries@.len() implies #[trigger] self.entries@[j] == kv
                        || old_entries.contains(self.entries@[j]) by {
                        if j != i {
                            assert(self.entries@[j] == old_entries[j]);
                        }
                    }
                }
            },
            Err(i) => {
                let ghost before = self.pairs();
                self.entries.insert(i, (k, v));
                proof {
                    assert(self.pairs() =~= before.insert(i as int, (km, vm)));
                    self.lemma_insert_map(before, i as int, km, vm);
                    assert forall|j: int| 0 <= j < self.entries@.len() implies #[trigger] self.entries@[j] == kv
                        || old_entries.contains(self.entries@[j]) by {
                        if j < i {
                            assert(self.entries@[j] == old_entries[j]);
                        } else if j > i {
                            assert(self.entries@[j] == old_entries[j - 1]);
                        }
                    }
                }
            },
        }
    }

    /// Removes the entry stored under `k`, if any.
    pub fn remove(&mut self, k: &K)
        requires
            old(self).wf(),
        ensures
            final(self).wf(),
            final(self).map() == old(self).map().remove(k.model()),
            forall|i: int| 0 <= i < final(self).entries@.len() ==> old(self).entries@.contains(#[trigger] final(self).entries@[i]),
    {
        let ghost old_entries = self.entries@;
        match self.find(k) {
            Ok(i) => {
                let ghost before = self.pairs();
                let _ = self.entries.remove(i);
                proof {
                    assert(self.pairs() =~= before.remove(i as int));
                    self.lemma_remove_map(before, i as int, k.model());
                    assert forall|j: int| 0 <= j < self.entries@.len() implies old_entries.contains(#[trigger] self.entries@[j]) by {
                        if j < i {
                            assert(self.entries@[j] == old_entries[j]);
                        } else {
                            assert(self.entries@[j] == old_entries[j + 1]);
                        }
                    }
                }
            },
            Err(i) => {
                proof {
                    self.lemma_map_contains(k.model());
                    if self.map().contains_key(k.model()) {
                        let j = choose|j: int| 0 <= j < self.pairs().len() && (#[trigger] self.pairs()[j]).0 == k.model();
                        K::lemma_irreflexive(k.model());
                    }
                    assert(self.map() =~= self.map().remove(k.model()));
                    assert forall|j: int| 0 <= j < self.entries@.len() implies old_entries.contains(#[trigger] self.entries@[j]) by {
                        assert(old_entries[j] == self.entries@[j]);
                    }
                }
            },
        }
    }

    /// Stores every entry of `other`, replacing values under keys it shares
    /// with `self`.
    pub fn extend_from(&mut self, other: &SortedMap<K, V>)
        requires
            old(self).wf(),
        ensures
            final(self).wf(),
            final(self).map() == old(self).map().union_prefer_right(other.map()),
    {
        let ghost start = self.map();
        let mut j: usize = 0;
        while j < other.entries.len()
            invariant
                self.wf(),
                j <= other.pairs().len(),
                other.pairs().len() == other.entries@.len(),
                self.map() == start.union_prefer_right(pairs_to_map(other.pairs().subrange(0, j as int))),
            decreases other.entries.len() - j,
        {
            let k = other.entries[j].0.duplicate();
            let v = other.entries[j].1.duplicate();
            let ghost before = self.map();
            self.insert(k, v);
            proof {
                let s = other.pairs();
                assert(s.subrange(0, j + 1).drop_last() =~= s.subrange(0, j as int));
                assert(s.subrange(0, j + 1).last() == s[j as int]);
                assert(self.map() =~= start.union_prefer_right(pairs_to_map(s.subrange(0, j + 1))));
            }
            j = j + 1;
        }
        assert(other.pairs().subrange(0, j as int) =~= other.pairs());
    }

    proof fn lemma_remove_map(&self, before: Seq<(K::M, V::M)>, i: int, km: K::M)
        requires
            strictly_sorted::<K, V::M>(before),
            0 <= i < before.len(),
            before[i].0 == km,
            self.pairs() == before.remove(i),
        ensures
            self.wf(),
            self.map() == pairs_to_map(before).remove(km),
    {
        let after = self.pairs();
        assert(self.wf()) by {
            assert forall|a: int, b: int| 0 <= a < b < after.len() implies K::less(#[trigger] after[a].0, #[trigger] after[b].0) by {
                if b < i {
                } else if a < i {
                    assert(after[b] == before[b + 1]);
                } else {
                    assert(after[a] == before[a + 1]);
                    assert(after[b] == before[b + 1]);
                }
            }
        }
        let m1 = self.map();
        let m2 = pairs_to_map(before).remove(km);
        K::lemma_irreflexive(km);
        assert forall|k: K::M| m1.contains_key(k) <==> m2.contains_key(k) by {
            lemma_pairs_to_map_contains(after, k);
            lemma_pairs_to_map_contains(before, k);
            if exists|j: int| 0 <= j < before.len() && (#[trigger] before[j]).0 == k {
                let j = choose|j: int| 0 <= j < before.len() && (#[trigger] before[j]).0 == k;
                if j < i {
                    assert(after[j].0 == k);
                    assert(K::less(before[j].0, before[i].0));
                } else if j > i {
                    assert(after[j - 1].0 == k);
                    assert(K::less(before[i].0, before[j].0));
                }
            }
            if exists|j: int| 0 <= j < after.len() && (#[trigger] after[j]).0 == k {
                let j = choose|j: int| 0 <= j < after.len() && (#[trigger] after[j]).0 == k;
                if j < i {
                    assert(before[j].0 == k);
                    assert(K::less(before[j].0, before[i].0));
                } else {
                    assert(before[j + 1].0 == k);
                    assert(K::less(before[i].0, before[j + 1].0));
                }
            }
        }
        assert forall|k: K::M| m1.contains_key(k) implies m1[k] == m2[k] by {
            lemma_pairs_to_map_contains(after, k);
            let j = choose|j: int| 0 <= j < after.len() && (#[trigger] after[j]).0 == k;
            lemma_pairs_to_map_at::<K, V::M>(after, j);
            if j < i {
                lemma_pairs_to_map_at::<K, V::M>(before, j);
                assert(before[j] == after[j]);
            } else {
                lemma_pairs_to_map_at::<K, V::M>(before, j + 1);
                assert(before[j + 1] == after[j]);
            }
        }
        assert(m1 =~= m2);
    }

    proof fn lemma_update_map(&self, before: Seq<(K::M, V::M)>, i: int, km: K::M, vm: V::M)
        requires
            strictly_sorted::<K, V::M>(before),
            0 <= i < before.len(),
            before[i].0 == km,
            self.pairs() == before.update(i, (km, vm)),
        ensures
            self.wf(),
            self.map() == pairs_to_map(before).insert(km, vm),
    {
        let after = self.pairs();
        assert(self.wf()) by {
            assert forall|a: int, b: int| 0 <= a < b < after.len() implies K::less(#[trigger] after[a].0, #[trigger] after[b].0) by {
                assert(after[a].0 == before[a].0 && after[b].0 == before[b].0);
            }
        }
        let m1 = self.map();
        let m2 = pairs_to_map(before).insert(km, vm);
        assert forall|k: K::M| m1.contains_key(k) <==> m2.contains_key(k) by {
            lemma_pairs_to_map_contains(after, k);
            lemma_pairs_to_map_contains(before, k);
            if exists|j: int| 0 <= j < before.len() && (#[trigger] before[j]).0 == k {
                let j = choose|j: int| 0 <= j < before.len() && (#[trigger] before[j]).0 == k;
                assert(after[j].0 == k);
            }
            if exists|j: int| 0 <= j < after.len() && (#[trigger] after[j]).0 == k {
                let j = choose|j: int| 0 <= j < after.len() && (#[trigger] after[j]).0 == k;
                assert(before[j].0 == k);
            }
        }
        assert forall|k: K::M| m1.contains_key(k) implies m1[k] == m2[k] by {
            lemma_pairs_to_map_contains(after, k);
            let j = choose|j: int| 0 <= j < after.len() && (#[trigger] after[j]).0 == k;
            lemma_pairs_to_map_at::<K, V::M>(after, j);
            if j != i {
                lemma_pairs_to_map_at::<K, V::M>(before, j);
                assert(before[j] == after[j]);
                K::lemma_irreflexive(km);
                if j < i {
                    assert(K::less(before[j].0, before[i].0));
                } else {
                    assert(K::less(before[i].0, before[j].0));
                }
                assert(k != km);
            }
        }
        assert(m1 =~= m2);
    }

    proof fn lemma_insert_map(&self, before: Seq<(K::M, V::M)>, i: int, km: K::M, vm: V::M)
        requires
            strictly_sorted::<K, V::M>(before),
            0 <= i <= before.len(),
            forall|j: int| 0 <= j < i ==> K::less(#[trigger] before[j].0, km),
            forall|j: int| i <= j < before.len() ==> K::less(km, #[trigger] before[j].0),
            self.pairs() == before.insert(i, (km, vm)),
        ensures
            self.wf(),
            self.map() == pairs_to_map(before).insert(km, vm),
    {
        let after = self.pairs();
        assert(self.wf()) by {
            assert forall|a: int, b: int| 0 <= a < b < after.len() implies K::less(#[trigger] after[a].0, #[trigger] after[b].0) by {
                if a < i && b < i {
                } else if a < i && b == i {
                } else if a < i {
                    assert(after[b] == before[b - 1]);
                    if b - 1 > a {
                        K::lemma_transitive(before[a].0, km, before[b - 1].0);
                    } else {
                        K::lemma_transitive(before[a].0, km, before[b - 1].0);
                    }
                } else if a == i {
                    assert(after[b] == before[b - 1]);
                } else {
                    assert(after[a] == before[a - 1]);
                    assert(after[b] == before[b - 1]);
                }
            }
        }
        let m1 = self.map();
        let m2 = pairs_to_map(before).insert(km, vm);
        assert forall|k: K::M| m1.contains_key(k) <==> m2.contains_key(k) by {
            lemma_pairs_to_map_contains(after, k);
            lemma_pairs_to_map_contains(before, k);
            if exists|j: int| 0 <= j < before.len() && (#[trigger] before[j]).0 == k {
                let j = choose|j: int| 0 <= j < before.len() && (#[trigger] before[j]).0 == k;
                if j < i {
                    assert(after[j].0 == k);
                } else {
                    assert(after[j + 1].0 == k);
                }
            }
            if exists|j: int| 0 <= j < after.len() && (#[trigger] after[j]).0 == k {
                let j = choose|j: int| 0 <= j < after.len() && (#[trigger] after[j]).0 == k;
                if j < i {
                    assert(before[j].0 == k);
                } else if j > i {
                    assert(before[j - 1].0 == k);
                }
            }
            assert(after[i].0 == km);
        }
        assert forall|k: K::M| m1.contains_key(k) implies m1[k] == m2[k] by {
            lemma_pairs_to_map_contains(after, k);
            let j = choose|j: int| 0 <= j < after.len() && (#[trigger] after[j]).0 == k;
            lemma_pairs_to_map_at::<K, V::M>(after, j);
            if j < i {
                lemma_pairs_to_map_at::<K, V::M>(before, j);
                assert(before[j] == after[j]);
                assert(K::less(before[j].0, km));
                K::lemma_irreflexive(km);
                assert(k != km);
                assert(m1[k] == m2[k]);
            } else if j > i {
                lemma_pairs_to_map_at::<K, V::M>(before, j - 1);
                assert(before[j - 1] == after[j]);
                assert(K::less(km, before[j - 1].0));
                K::lemma_irreflexive(km);
                assert(k != km);
                assert(m1[k] == m2[k]);
            } else {
                assert(after[j] == (km, vm));
                assert(m1[k] == m2[k]);
            }
        }
        assert(m1 =~= m2);
    }
}

impl<K: KeyOrder, V: Model> Model for SortedMap<K, V> {
    type M = Seq<(K::M, V::M)>;

    open spec fn model(&self) -> Seq<(K::M, V::M)> {
        self.pairs()
    }

    fn duplicate(&self) -> (r: SortedMap<K, V>) {
        let mut entries: Vec<(K, V)> = Vec::new();
        let mut i: usize = 0;
        while i < self.entries.len()
            invariant
                i <= self.entries@.len(),
                entries@.len() == i,
                forall|j: int| 0 <= j < i ==> (#[trigger] entries@[j]).0.model() == self.entries@[j].0.model()
                    && entries@[j].1.model() == self.entries@[j].1.model(),
            decreases self.entries.len() - i,
        {
            let k = self.entries[i].0.duplicate();
            let v = self.entries[i].1.duplicate();
            entries.push((k, v));
            i = i + 1;
        }
        let r = SortedMap { entries };
        assert forall|j: int| 0 <= j < r.pairs().len() implies #[trigger] r.pairs()[j] == self.pairs()[j] by {
            assert(r.entries@[j].0.model() == self.entries@[j].0.model());
        }
        assert(r.pairs() =~= self.pairs());
        assert(r.model() == self.model());
        r
    }
}

} // verus!
