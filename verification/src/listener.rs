//! Listeners registered under prefixes, and which of them stay registered
//! after being alerted.

use crate::order::Model;
use crate::sorted_map::SortedMap;
use vstd::prelude::*;

verus! {

/// The listeners of `ids` whose alert answered `true`, in order.
pub open spec fn retained(ids: Seq<u64>, keep: Seq<bool>) -> Seq<u64>
    decreases ids.len(),
{
    if ids.len() == 0 || keep.len() == 0 {
        Seq::empty()
    } else if keep.last() {
        retained(ids.drop_last(), keep.drop_last()).push(ids.last())
    } else {
        retained(ids.drop_last(), keep.drop_last())
    }
}

/// The listeners of `m` once `id` is registered under `prefix`, after the
/// ones already there.
pub open spec fn listened(m: Map<Seq<Seq<u8>>, Seq<u64>>, prefix: Seq<Seq<u8>>, id: u64) -> Map<Seq<Seq<u8>>, Seq<u64>> {
    m.insert(prefix, if m.contains_key(prefix) { m[prefix].push(id) } else { seq![id] })
}

/// The listeners of `m` once those under `prefix` were alerted and answered
/// `keep`: those that answered `true` stay; a prefix left with none is
/// forgotten.
pub open spec fn alerted(m: Map<Seq<Seq<u8>>, Seq<u64>>, prefix: Seq<Seq<u8>>, keep: Seq<bool>) -> Map<Seq<Seq<u8>>, Seq<u64>> {
    if !m.contains_key(prefix) {
        m
    } else if retained(m[prefix], keep).len() == 0 {
        m.remove(prefix)
    } else {
        m.insert(prefix, retained(m[prefix], keep))
    }
}

/// A listener stays after an alert exactly when one of its registrations
/// answered `true`: a listener that answers `false` is never alerted again.
pub proof fn lemma_retained_contains(ids: Seq<u64>, keep: Seq<bool>, id: u64)
    requires
        keep.len() == ids.len(),
    ensures
        retained(ids, keep).contains(id) <==> exists|i: int| 0 <= i < ids.len() && ids[i] == id && keep[i],
    decreases ids.len(),
{
    if ids.len() > 0 {
        let n = ids.len() - 1;
        lemma_retained_contains(ids.drop_last(), keep.drop_last(), id);
        let r0 = retained(ids.drop_last(), keep.drop_last());
        if exists|i: int| 0 <= i < ids.len() && ids[i] == id && keep[i] {
            let i = choose|i: int| 0 <= i < ids.len() && ids[i] == id && keep[i];
            if i < n {
                assert(ids.drop_last()[i] == id && keep.drop_last()[i]);
                assert(r0.contains(id));
                if keep.last() {
                    assert(r0.push(ids.last()).contains(id)) by {
                        let j = choose|j: int| 0 <= j < r0.len() && r0[j] == id;
                        assert(r0.push(ids.last())[j] == id);
                    }
                }
            } else {
                assert(r0.push(ids.last())[r0.len() as int] == id);
            }
        }
        if retained(ids, keep).contains(id) {
            if keep.last() {
                let j = choose|j: int| 0 <= j < r0.push(ids.last()).len() && r0.push(ids.last())[j] == id;
                if j < r0.len() {
                    assert(r0[j] == id);
                    let i = choose|i: int| 0 <= i < ids.drop_last().len() && ids.drop_last()[i] == id && keep.drop_last()[i];
                    assert(ids[i] == id && keep[i]);
                } else {
                    assert(ids[n] == id && keep[n]);
                }
            } else {
                let i = choose|i: int| 0 <= i < ids.drop_last().len() && ids.drop_last()[i] == id && keep.drop_last()[i];
                assert(ids[i] == id && keep[i]);
            }
        }
    }
}

/// Listeners, each known by an identifier, grouped by the prefix they
/// listen to. A listener stays registered for as long as its alerts answer
/// `true`; the caller that runs a listener hands its answer back to `alert`.
#[derive(Debug)]
pub struct ListenerMap {
    pub listeners: SortedMap<Vec<Vec<u8>>, Vec<u64>>,
}

impl ListenerMap {
    pub open spec fn wf(&self) -> bool {
        self.listeners.wf()
    }

    /// The listeners of each prefix that has any.
    pub open spec fn view(&self) -> Map<Seq<Seq<u8>>, Seq<u64>> {
        self.listeners.map()
    }

    pub fn new() -> (r: ListenerMap)
        ensures
            r.wf(),
            r.view() == Map::<Seq<Seq<u8>>, Seq<u64>>::empty(),
    {
        ListenerMap { listeners: SortedMap::new() }
    }

    /// Registers listener `listener` under `prefix`, after the ones already there.
    pub fn listen(&mut self, prefix: Vec<Vec<u8>>, listener: u64)
        requires
            old(self).wf(),
        ensures
            final(self).wf(),
            final(self).view() == listened(old(self).view(), prefix.model(), listener),
    {
        let mut ids: Vec<u64> = match self.listeners.get(&prefix) {
            Some(existing) => existing.duplicate(),
            None => {
                let v: Vec<u64> = Vec::new();
                assert(v.model() =~= Seq::<u64>::empty());
                v
            },
        };
        let ghost before = ids.model();
        ids.push(listener);
        assert(ids.model() =~= before.push(listener));
        assert(Seq::<u64>::empty().push(listener) =~= seq![listener]);
        self.listeners.insert(prefix, ids);
    }

    /// The listeners registered under `prefix`, in the order they registered.
    pub fn listeners_of(&self, prefix: &Vec<Vec<u8>>) -> (r: Vec<u64>)
        requires
            self.wf(),
        ensures
            r@ == (if self.view().contains_key(prefix.model()) {
                self.view()[prefix.model()]
            } else {
                Seq::<u64>::empty()
            }),
    {
        match self.listeners.get(prefix) {
            Some(ids) => {
                let r = ids.duplicate();
                assert(r@ =~= r.model());
                assert(ids@ =~= ids.model());
                r
            },
            None => Vec::new(),
        }
    }

    /// Takes the answers of the listeners under `prefix`, given in the order
    /// `listeners_of` lists them, and keeps those that answered `true`; a
    /// prefix left with no listener is forgotten.
    pub fn alert(&mut self, prefix: &Vec<Vec<u8>>, keep: &Vec<bool>)
        requires
            old(self).wf(),
            old(self).view().contains_key(prefix.model()) ==> keep@.len() == old(self).view()[prefix.model()].len(),
        ensures
            final(self).wf(),
            final(self).view() == alerted(old(self).view(), prefix.model(), keep@),
    {
        let ids = match self.listeners.get(prefix) {
            Some(ids) => ids.duplicate(),
            None => {
                return ;
            },
        };
        let ghost all = ids.model();
        let mut kept: Vec<u64> = Vec::new();
        let mut i: usize = 0;
        while i < ids.len()
            invariant
                i <= ids@.len(),
                all == ids.model(),
                all.len() == ids@.len(),
                keep@.len() == all.len(),
                kept.model() == retained(all.subrange(0, i as int), keep@.subrange(0, i as int)),
            decreases ids.len() - i,
        {
            proof {
                assert(all.subrange(0, i + 1).drop_last() =~= all.subrange(0, i as int));
                assert(keep@.subrange(0, i + 1).drop_last() =~= keep@.subrange(0, i as int));
                assert(all[i as int] == ids@[i as int]);
            }
            if keep[i] {
                let ghost before = kept.model();
                kept.push(ids[i]);
                assert(kept.model() =~= before.push(ids@[i as int]));
            }
            i = i + 1;
        }
        assert(all.subrange(0, i as int) =~= all);
        assert(keep@.subrange(0, i as int) =~= keep@);
        if kept.len() == 0 {
            self.listeners.remove(prefix);
        } else {
            let p = prefix.duplicate();
            self.listeners.insert(p, kept);
        }
    }
}

impl Default for ListenerMap {
    fn default() -> (r: ListenerMap)
        ensures
            r.wf(),
            r.view() == Map::<Seq<Seq<u8>>, Seq<u64>>::empty(),
    {
        ListenerMap::new()
    }
}

} // verus!
