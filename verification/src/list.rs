//! A list that stays consistent under concurrent edits: each item has a
//! unique identifier and a fractional location, and the list is its items in
//! location order.

use crate::order::{lemma_bytes_model, KeyOrder, Model};
use crate::sorted_map::SortedMap;
use crate::state_machine::{StateMachine, TransitionView};
use crate::zeno_index::{lemma_zeno_asymmetric, lemma_zeno_irreflexive, lemma_zeno_transitive, zeno_less, ZenoIndex};
use vstd::prelude::*;

verus! {

broadcast use lemma_bytes_model;

/// What `fractional_index::ZenoIndex::new_before` returns for these bytes.
pub uninterp spec fn zeno_before(bytes: Seq<u8>) -> Seq<u8>;

/// What `fractional_index::ZenoIndex::new_after` returns for these bytes.
pub uninterp spec fn zeno_after(bytes: Seq<u8>) -> Seq<u8>;

/// What `fractional_index::ZenoIndex::new_between` returns for these bytes.
pub uninterp spec fn zeno_between(left: Seq<u8>, right: Seq<u8>) -> Option<Seq<u8>>;

/// `fractional_index::ZenoIndex::new_before`, on the same bytes. Its
/// documentation promises an index that compares as less than the given
/// one (its `Ord` compares digit by digit, as `zeno_less` does); the result
/// is named `zeno_before`.
#[verifier::external_body]
#[allow(deprecated)]
fn index_before(z: &ZenoIndex) -> (r: ZenoIndex)
    ensures
        r.0@ == zeno_before(z.0@),
        zeno_less(r.0@, z.0@),
{
    let fz = fractional_index::ZenoIndex::from_bytes(z.0.clone());
    ZenoIndex(fractional_index::ZenoIndex::new_before(&fz).as_bytes().to_vec())
}

/// `fractional_index::ZenoIndex::new_after`, on the same bytes. Its
/// documentation promises an index that compares as greater than the given
/// one; the result is named `zeno_after`.
#[verifier::external_body]
#[allow(deprecated)]
fn index_after(z: &ZenoIndex) -> (r: ZenoIndex)
    ensures
        r.0@ == zeno_after(z.0@),
        zeno_less(z.0@, r.0@),
{
    let fz = fractional_index::ZenoIndex::from_bytes(z.0.clone());
    ZenoIndex(fractional_index::ZenoIndex::new_after(&fz).as_bytes().to_vec())
}

/// `fractional_index::ZenoIndex::new_between`, on the same bytes. Its
/// documentation promises an index strictly between the two; its source
/// returns one exactly when the first compares as less than the second.
/// The result is named `zeno_between`.
#[verifier::external_body]
#[allow(deprecated)]
fn index_between(left: &ZenoIndex, right: &ZenoIndex) -> (r: Option<ZenoIndex>)
    ensures
        zeno_between(left.0@, right.0@) == match r {
            Some(z) => Some(z.0@),
            None => None::<Seq<u8>>,
        },
        r is Some <==> zeno_less(left.0@, right.0@),
        r matches Some(z) ==> zeno_less(left.0@, z.0@) && zeno_less(z.0@, right.0@),
{
    let fl = fractional_index::ZenoIndex::from_bytes(left.0.clone());
    let fr = fractional_index::ZenoIndex::from_bytes(right.0.clone());
    match fractional_index::ZenoIndex::new_between(&fl, &fr) {
        Some(z) => Some(ZenoIndex(z.as_bytes().to_vec())),
        None => None,
    }
}

/// `id` reads as a version-4 UUID of the RFC variant: its version nibble is
/// 4 and the two top bits of its variant are 10.
pub open spec fn is_v4_id(id: u128) -> bool {
    id & 0x0000_0000_0000_F000_C000_0000_0000_0000u128 == 0x0000_0000_0000_4000_8000_0000_0000_0000u128
}

/// A fresh random identifier (`uuid::Uuid::new_v4`, as a `u128`). Its bits
/// are random but for those that mark a version-4 UUID, which `new_v4` sets.
#[verifier::external_body]
fn new_id() -> (r: u128)
    ensures
        is_v4_id(r),
{
    uuid::Uuid::new_v4().as_u128()
}

/// Where an item goes.
#[derive(Debug)]
pub enum ListPosition {
    Beginning,
    End,
    AbsolutePosition(ZenoIndex),
    /// Before the item with this identifier, or else before the given location.
    Before(u128, ZenoIndex),
    /// After the item with this identifier, or else after the given location.
    After(u128, ZenoIndex),
}

/// What a position says.
pub enum PositionView {
    Beginning,
    End,
    AbsolutePosition(Seq<u8>),
    Before(u128, Seq<u8>),
    After(u128, Seq<u8>),
}

impl View for ListPosition {
    type V = PositionView;

    open spec fn view(&self) -> PositionView {
        match self {
            ListPosition::Beginning => PositionView::Beginning,
            ListPosition::End => PositionView::End,
            ListPosition::AbsolutePosition(z) => PositionView::AbsolutePosition(z.0@),
            ListPosition::Before(id, z) => PositionView::Before(*id, z.0@),
            ListPosition::After(id, z) => PositionView::After(*id, z.0@),
        }
    }
}

/// A change to a list.
pub enum ListOperation<T: StateMachine> {
    /// Insert `value` under identifier at a position.
    Insert(ListPosition, u128, T),
    Delete(u128),
    /// Move the item with this identifier to a location.
    Move(u128, ZenoIndex),
    /// Apply a transition to the item with this identifier.
    Apply(u128, T::Transition),
}

/// What an operation says.
pub enum OperationView<T: StateMachine> {
    Insert(PositionView, u128, T::V),
    Delete(u128),
    Move(u128, Seq<u8>),
    Apply(u128, TransitionView<T>),
}

impl<T: StateMachine> View for ListOperation<T> {
    type V = OperationView<T>;

    open spec fn view(&self) -> OperationView<T> {
        match self {
            ListOperation::Insert(p, id, v) => OperationView::Insert(p@, *id, v@),
            ListOperation::Delete(id) => OperationView::Delete(*id),
            ListOperation::Move(id, z) => OperationView::Move(*id, z.0@),
            ListOperation::Apply(id, t) => OperationView::Apply(*id, t@),
        }
    }
}

/// Why an operation on a list did not apply.
pub enum ListConflict<T: StateMachine> {
    /// No item has this identifier; it may have been deleted since.
    ItemDoesNotExist(u128),
    /// The item's own transition conflicted.
    ChildConflict(T::Conflict),
}

/// An item's value, kept in the list's pool.
pub struct Item<T>(pub T);

impl<T: StateMachine> Model for Item<T> {
    type M = T::V;

    open spec fn model(&self) -> T::V {
        self.0@
    }

    fn duplicate(&self) -> (r: Item<T>) {
        Item(self.0.copy_state())
    }
}

/// What a list holds: the identifier at each location, the location of each
/// identifier, and the value of each identifier.
pub struct ListView<V> {
    pub items: Map<Seq<u8>, u128>,
    pub locations: Map<u128, Seq<u8>>,
    pub pool: Map<u128, V>,
}

/// `k` is the lowest location of `m`.
pub open spec fn is_first(m: Map<Seq<u8>, u128>, k: Seq<u8>) -> bool {
    m.contains_key(k) && forall|j: Seq<u8>| #[trigger] m.contains_key(j) && j != k ==> zeno_less(k, j)
}

/// `k` is the highest location of `m`.
pub open spec fn is_last(m: Map<Seq<u8>, u128>, k: Seq<u8>) -> bool {
    m.contains_key(k) && forall|j: Seq<u8>| #[trigger] m.contains_key(j) && j != k ==> zeno_less(j, k)
}

/// `k` is the lowest location of `m` above `loc`.
pub open spec fn is_next(m: Map<Seq<u8>, u128>, loc: Seq<u8>, k: Seq<u8>) -> bool {
    &&& m.contains_key(k)
    &&& zeno_less(loc, k)
    &&& forall|j: Seq<u8>| #[trigger] m.contains_key(j) && zeno_less(loc, j) && j != k ==> zeno_less(k, j)
}

/// Where an item goes in `l` for position `pos`: the beginning goes below
/// the lowest location and the end above the highest (one half in an empty
/// list); otherwise the location the position names, moved up between it
/// and the next location when an item is already there.
pub open spec fn location_of<V>(l: ListView<V>, pos: PositionView) -> Seq<u8> {
    match pos {
        PositionView::Beginning => if exists|k: Seq<u8>| is_first(l.items, k) {
            zeno_before(choose|k: Seq<u8>| is_first(l.items, k))
        } else {
            Seq::empty()
        },
        PositionView::End => if exists|k: Seq<u8>| is_last(l.items, k) {
            zeno_after(choose|k: Seq<u8>| is_last(l.items, k))
        } else {
            Seq::empty()
        },
        _ => settled(l.items, requested_location(l, pos)),
    }
}

/// The location a position other than the beginning or the end asks for.
pub open spec fn requested_location<V>(l: ListView<V>, pos: PositionView) -> Seq<u8> {
    match pos {
        PositionView::AbsolutePosition(p) => p,
        PositionView::Before(id, fallback) => if l.locations.contains_key(id) {
            zeno_before(l.locations[id])
        } else {
            zeno_before(fallback)
        },
        PositionView::After(id, fallback) => if l.locations.contains_key(id) {
            zeno_after(l.locations[id])
        } else {
            zeno_after(fallback)
        },
        _ => Seq::empty(),
    }
}

/// `loc`, or when an item is there, a location between it and the next one
/// (or above it when it is the highest).
pub open spec fn settled(items: Map<Seq<u8>, u128>, loc: Seq<u8>) -> Seq<u8> {
    if items.contains_key(loc) {
        if exists|k: Seq<u8>| is_next(items, loc, k) {
            zeno_between(loc, choose|k: Seq<u8>| is_next(items, loc, k))->Some_0
        } else {
            zeno_after(loc)
        }
    } else {
        loc
    }
}

/// The list after applying `op`, or why it does not apply.
pub open spec fn list_next<T: StateMachine>(l: ListView<T::V>, op: OperationView<T>) -> Result<ListView<T::V>, ListConflict<T>> {
    match op {
        OperationView::Insert(pos, id, value) => {
            let loc = location_of(l, pos);
            Ok(ListView { items: l.items.insert(loc, id), locations: l.locations.insert(id, loc), pool: l.pool.insert(id, value) })
        },
        OperationView::Delete(id) => Ok(ListView {
            items: if l.locations.contains_key(id) {
                l.items.remove(l.locations[id])
            } else {
                l.items
            },
            locations: l.locations.remove(id),
            pool: l.pool.remove(id),
        }),
        OperationView::Move(id, loc) => if l.locations.contains_key(id) {
            Ok(ListView {
                items: l.items.remove(l.locations[id]).insert(loc, id),
                locations: l.locations.insert(id, loc),
                pool: l.pool,
            })
        } else {
            Err(ListConflict::ItemDoesNotExist(id))
        },
        OperationView::Apply(id, t) => if l.pool.contains_key(id) {
            match T::next(l.pool[id], t) {
                Ok(v) => Ok(ListView { pool: l.pool.insert(id, v), ..l }),
                Err(e) => Err(ListConflict::ChildConflict(e)),
            }
        } else {
            Err(ListConflict::ItemDoesNotExist(id))
        },
    }
}

/// The view of an operation's outcome.
pub open spec fn outcome_view<T: StateMachine>(r: Result<List<T>, ListConflict<T>>) -> Result<ListView<T::V>, ListConflict<T>> {
    match r {
        Ok(l) => Ok(l@),
        Err(e) => Err(e),
    }
}

proof fn lemma_first_unique(m: Map<Seq<u8>, u128>, a: Seq<u8>, b: Seq<u8>)
    requires
        is_first(m, a),
        is_first(m, b),
    ensures
        a == b,
{
    if a != b {
        assert(m.contains_key(b));
        assert(m.contains_key(a));
        lemma_zeno_asymmetric(a, b);
    }
}

proof fn lemma_last_unique(m: Map<Seq<u8>, u128>, a: Seq<u8>, b: Seq<u8>)
    requires
        is_last(m, a),
        is_last(m, b),
    ensures
        a == b,
{
    if a != b {
        assert(m.contains_key(b));
        assert(m.contains_key(a));
        lemma_zeno_asymmetric(a, b);
    }
}

proof fn lemma_next_unique(m: Map<Seq<u8>, u128>, loc: Seq<u8>, a: Seq<u8>, b: Seq<u8>)
    requires
        is_next(m, loc, a),
        is_next(m, loc, b),
    ensures
        a == b,
{
    if a != b {
        assert(m.contains_key(b));
        assert(m.contains_key(a));
        lemma_zeno_asymmetric(a, b);
    }
}

/// A list of items of type `T`: the identifier at each location, the
/// location of each identifier, and the value of each identifier.
pub struct List<T: StateMachine> {
    pub(crate) items: SortedMap<ZenoIndex, u128>,
    pub(crate) items_inv: SortedMap<u128, ZenoIndex>,
    pub(crate) pool: SortedMap<u128, Item<T>>,
}

impl<T: StateMachine> View for List<T> {
    type V = ListView<T::V>;

    closed spec fn view(&self) -> ListView<T::V> {
        ListView { items: self.items.map(), locations: self.items_inv.map(), pool: self.pool.map() }
    }
}

impl<T: StateMachine> List<T> {
    #[verifier::type_invariant]
    closed spec fn wf(&self) -> bool {
        self.items.wf() && self.items_inv.wf() && self.pool.wf()
    }

    /// The first entry of a sorted map of locations holds its lowest location.
    proof fn lemma_first_entry(items: SortedMap<ZenoIndex, u128>)
        requires
            items.wf(),
            items.pairs().len() > 0,
        ensures
            is_first(items.map(), items.pairs()[0].0),
            (choose|k: Seq<u8>| is_first(items.map(), k)) == items.pairs()[0].0,
    {
        let ps = items.pairs();
        items.lemma_map_at(0);
        assert forall|j: Seq<u8>| #[trigger] items.map().contains_key(j) && j != ps[0].0 implies zeno_less(ps[0].0, j) by {
            items.lemma_map_contains(j);
            let b = choose|b: int| 0 <= b < ps.len() && (#[trigger] ps[b]).0 == j;
            assert(b != 0);
            assert(<ZenoIndex as KeyOrder>::less(ps[0].0, ps[b].0));
        }
        assert(is_first(items.map(), ps[0].0));
        let k = choose|k: Seq<u8>| is_first(items.map(), k);
        lemma_first_unique(items.map(), k, ps[0].0);
    }

    /// The last entry of a sorted map of locations holds its highest location.
    proof fn lemma_last_entry(items: SortedMap<ZenoIndex, u128>)
        requires
            items.wf(),
            items.pairs().len() > 0,
        ensures
            is_last(items.map(), items.pairs().last().0),
            (choose|k: Seq<u8>| is_last(items.map(), k)) == items.pairs().last().0,
    {
        let ps = items.pairs();
        let n = ps.len() - 1;
        items.lemma_map_at(n);
        assert forall|j: Seq<u8>| #[trigger] items.map().contains_key(j) && j != ps[n].0 implies zeno_less(j, ps[n].0) by {
            items.lemma_map_contains(j);
            let b = choose|b: int| 0 <= b < ps.len() && (#[trigger] ps[b]).0 == j;
            assert(b != n);
            assert(<ZenoIndex as KeyOrder>::less(ps[b].0, ps[n].0));
        }
        assert(is_last(items.map(), ps[n].0));
        let k = choose|k: Seq<u8>| is_last(items.map(), k);
        lemma_last_unique(items.map(), k, ps[n].0);
    }

    /// A location at entry `i` is followed by the location at entry `i + 1`,
    /// and by none when it is the last entry.
    proof fn lemma_next_entry(items: SortedMap<ZenoIndex, u128>, i: int)
        requires
            items.wf(),
            0 <= i < items.pairs().len(),
        ensures
            i + 1 < items.pairs().len() ==> is_next(items.map(), items.pairs()[i].0, items.pairs()[i + 1].0)
                && (choose|k: Seq<u8>| is_next(items.map(), items.pairs()[i].0, k)) == items.pairs()[i + 1].0,
            i + 1 == items.pairs().len() ==> !exists|k: Seq<u8>| is_next(items.map(), items.pairs()[i].0, k),
    {
        let ps = items.pairs();
        let loc = ps[i].0;
        if i + 1 < ps.len() {
            items.lemma_map_at(i + 1);
            assert(<ZenoIndex as KeyOrder>::less(ps[i].0, ps[i + 1].0));
            assert forall|j: Seq<u8>| #[trigger] items.map().contains_key(j) && zeno_less(loc, j) && j != ps[i + 1].0 implies zeno_less(ps[i + 1].0, j) by {
                items.lemma_map_contains(j);
                let b = choose|b: int| 0 <= b < ps.len() && (#[trigger] ps[b]).0 == j;
                if b < i {
                    assert(<ZenoIndex as KeyOrder>::less(ps[b].0, ps[i].0));
                    lemma_zeno_asymmetric(j, loc);
                } else if b == i {
                    lemma_zeno_irreflexive(loc);
                } else {
                    assert(b != i + 1);
                    assert(<ZenoIndex as KeyOrder>::less(ps[i + 1].0, ps[b].0));
                }
            }
            assert(is_next(items.map(), loc, ps[i + 1].0));
            let k = choose|k: Seq<u8>| is_next(items.map(), loc, k);
            lemma_next_unique(items.map(), loc, k, ps[i + 1].0);
        } else {
            if exists|k: Seq<u8>| is_next(items.map(), loc, k) {
                let k = choose|k: Seq<u8>| is_next(items.map(), loc, k);
                items.lemma_map_contains(k);
                let b = choose|b: int| 0 <= b < ps.len() && (#[trigger] ps[b]).0 == k;
                if b < i {
                    assert(<ZenoIndex as KeyOrder>::less(ps[b].0, ps[i].0));
                    lemma_zeno_asymmetric(k, loc);
                } else {
                    lemma_zeno_irreflexive(loc);
                }
            }
        }
    }

    /// An empty list.
    pub fn new() -> (r: List<T>)
        ensures
            r@.items == Map::<Seq<u8>, u128>::empty(),
            r@.locations == Map::<u128, Seq<u8>>::empty(),
            r@.pool == Map::<u128, T::V>::empty(),
    {
        List { items: SortedMap::new(), items_inv: SortedMap::new(), pool: SortedMap::new() }
    }

    /// `loc`, or when an item is there, a location between it and the next
    /// one (or above it when it is the highest).
    fn settle(&self, loc: ZenoIndex) -> (r: ZenoIndex)
        ensures
            r.0@ == settled(self@.items, loc.0@),
            !self@.items.contains_key(r.0@),
            !self@.items.contains_key(loc.0@) ==> r.0@ == loc.0@,
            self@.items.contains_key(loc.0@) ==> zeno_less(loc.0@, r.0@),
            forall|k: Seq<u8>| #[trigger] self@.items.contains_key(k) && zeno_less(loc.0@, k) ==> zeno_less(r.0@, k),
    {
        proof {
            use_type_invariant(self);
        }
        match self.items.find(&loc) {
            Ok(i) => {
                proof {
                    self.items.lemma_map_at(i as int);
                    Self::lemma_next_entry(self.items, i as int);
                }
                let n = self.items.entries.len();
                assert(i < n);
                if i + 1 < n {
                    let next = &self.items.entries[i + 1].0;
                    assert(zeno_less(loc.0@, next.0@)) by {
                        assert(<ZenoIndex as KeyOrder>::less(self.items.pairs()[i as int].0, self.items.pairs()[i + 1].0));
                    }
                    match index_between(&loc, next) {
                        Some(z) => {
                            proof {
                                let ps = self.items.pairs();
                                assert(ps[i + 1].0 == next.0@);
                                if self@.items.contains_key(z.0@) {
                                    self.items.lemma_map_contains(z.0@);
                                    let b = choose|b: int| 0 <= b < ps.len() && (#[trigger] ps[b]).0 == z.0@;
                                    if b < i {
                                        assert(<ZenoIndex as KeyOrder>::less(ps[b].0, ps[i as int].0));
                                        lemma_zeno_transitive(z.0@, loc.0@, z.0@);
                                        lemma_zeno_irreflexive(z.0@);
                                    } else if b == i {
                                        lemma_zeno_irreflexive(z.0@);
                                    } else if b == i + 1 {
                                        lemma_zeno_irreflexive(z.0@);
                                    } else {
                                        assert(<ZenoIndex as KeyOrder>::less(ps[i + 1].0, ps[b].0));
                                        lemma_zeno_transitive(z.0@, next.0@, z.0@);
                                        lemma_zeno_irreflexive(z.0@);
                                    }
                                }
                                assert forall|k: Seq<u8>| #[trigger] self@.items.contains_key(k) && zeno_less(loc.0@, k) implies zeno_less(z.0@, k) by {
                                    self.items.lemma_map_contains(k);
                                    let b = choose|b: int| 0 <= b < ps.len() && (#[trigger] ps[b]).0 == k;
                                    if b < i {
                                        assert(<ZenoIndex as KeyOrder>::less(ps[b].0, ps[i as int].0));
                                        lemma_zeno_asymmetric(k, loc.0@);
                                    } else if b == i {
                                        lemma_zeno_irreflexive(loc.0@);
                                    } else if b == i + 1 {
                                    } else {
                                        assert(<ZenoIndex as KeyOrder>::less(ps[i + 1].0, ps[b].0));
                                        lemma_zeno_transitive(z.0@, next.0@, k);
                                    }
                                }
                            }
                            z
                        },
                        None => {
                            proof {
                                assert(false);
                            }
                            loc
                        },
                    }
                } else {
                    let z = index_after(&loc);
                    proof {
                        let ps = self.items.pairs();
                        if self@.items.contains_key(z.0@) {
                            self.items.lemma_map_contains(z.0@);
                            let b = choose|b: int| 0 <= b < ps.len() && (#[trigger] ps[b]).0 == z.0@;
                            if b < i {
                                assert(<ZenoIndex as KeyOrder>::less(ps[b].0, ps[i as int].0));
                                lemma_zeno_transitive(z.0@, loc.0@, z.0@);
                            }
                            lemma_zeno_irreflexive(z.0@);
                        }
                        assert forall|k: Seq<u8>| #[trigger] self@.items.contains_key(k) && zeno_less(loc.0@, k) implies zeno_less(z.0@, k) by {
                            self.items.lemma_map_contains(k);
                            let b = choose|b: int| 0 <= b < ps.len() && (#[trigger] ps[b]).0 == k;
                            if b < i {
                                assert(<ZenoIndex as KeyOrder>::less(ps[b].0, ps[i as int].0));
                                lemma_zeno_asymmetric(k, loc.0@);
                            } else {
                                lemma_zeno_irreflexive(loc.0@);
                            }
                        }
                    }
                    z
                }
            },
            Err(_) => {
                proof {
                    self.items.lemma_map_contains(loc.0@);
                    if self.items.map().contains_key(loc.0@) {
                        let j = choose|j: int| 0 <= j < self.items.pairs().len() && (#[trigger] self.items.pairs()[j]).0 == loc.0@;
                        <ZenoIndex as KeyOrder>::lemma_irreflexive(loc.0@);
                    }
                }
                loc
            },
        }
    }

    /// Where an item goes for `position` (see `location_of`).
    pub fn get_location(&self, position: ListPosition) -> (r: ZenoIndex)
        ensures
            r.0@ == location_of(self@, position@),
            !self@.items.contains_key(r.0@),
            position@ is Beginning ==> forall|k: Seq<u8>| #[trigger] self@.items.contains_key(k) ==> zeno_less(r.0@, k),
            position@ is End ==> forall|k: Seq<u8>| #[trigger] self@.items.contains_key(k) ==> zeno_less(k, r.0@),
            position@ matches PositionView::AbsolutePosition(p) ==> {
                &&& !self@.items.contains_key(p) ==> r.0@ == p
                &&& self@.items.contains_key(p) ==> zeno_less(p, r.0@)
                &&& forall|k: Seq<u8>| #[trigger] self@.items.contains_key(k) && zeno_less(p, k) ==> zeno_less(r.0@, k)
            },
            position@ matches PositionView::Before(id, fallback) ==> {
                let anchor = if self@.locations.contains_key(id) { self@.locations[id] } else { fallback };
                self@.items.contains_key(anchor) ==> zeno_less(r.0@, anchor)
            },
            position@ matches PositionView::After(id, fallback) ==> {
                let anchor = if self@.locations.contains_key(id) { self@.locations[id] } else { fallback };
                zeno_less(anchor, r.0@)
            },
    {
        proof {
            use_type_invariant(self);
        }
        let ghost pos = position@;
        let location = match position {
            ListPosition::Beginning => {
                let n = self.items.entries.len();
                if n > 0 {
                    proof {
                        Self::lemma_first_entry(self.items);
                        assert(self.items.pairs()[0].0 == self.items.entries@[0].0.0@);
                        assert(pos == PositionView::Beginning);
                        assert(is_first(self@.items, self.items.pairs()[0].0));
                        assert(location_of(self@, pos) == zeno_before(self.items.pairs()[0].0));
                    }
                    let r = index_before(&self.items.entries[0].0);
                    proof {
                        let first = self.items.pairs()[0].0;
                        assert forall|k: Seq<u8>| #[trigger] self@.items.contains_key(k) implies zeno_less(r.0@, k) by {
                            if k != first {
                                lemma_zeno_transitive(r.0@, first, k);
                            }
                        }
                        if self@.items.contains_key(r.0@) {
                            lemma_zeno_irreflexive(r.0@);
                        }
                    }
                    return r;
                } else {
                    proof {
                        if exists|k: Seq<u8>| is_first(self.items.map(), k) {
                            let k = choose|k: Seq<u8>| is_first(self.items.map(), k);
                            self.items.lemma_map_contains(k);
                        }
                    }
                    return ZenoIndex::default();
                }
            },
            ListPosition::End => {
                let n = self.items.entries.len();
                if n > 0 {
                    proof {
                        Self::lemma_last_entry(self.items);
                        assert(self.items.pairs().last().0 == self.items.entries@[n - 1].0.0@);
                        assert(pos == PositionView::End);
                        assert(is_last(self@.items, self.items.pairs().last().0));
                        assert(location_of(self@, pos) == zeno_after(self.items.pairs().last().0));
                    }
                    let r = index_after(&self.items.entries[n - 1].0);
                    proof {
                        let last = self.items.pairs().last().0;
                        assert forall|k: Seq<u8>| #[trigger] self@.items.contains_key(k) implies zeno_less(k, r.0@) by {
                            if k != last {
                                lemma_zeno_transitive(k, last, r.0@);
                            }
                        }
                        if self@.items.contains_key(r.0@) {
                            lemma_zeno_irreflexive(r.0@);
                        }
                    }
                    return r;
                } else {
                    proof {
                        if exists|k: Seq<u8>| is_last(self.items.map(), k) {
                            let k = choose|k: Seq<u8>| is_last(self.items.map(), k);
                            self.items.lemma_map_contains(k);
                        }
                    }
                    return ZenoIndex::default();
                }
            },
            ListPosition::AbsolutePosition(p) => p,
            ListPosition::Before(id, fallback) => {
                match self.items_inv.get(&id) {
                    Some(location) => index_before(location),
                    None => index_before(&fallback),
                }
            },
            ListPosition::After(id, fallback) => {
                match self.items_inv.get(&id) {
                    Some(location) => index_after(location),
                    None => index_after(&fallback),
                }
            },
        };
        assert(location.0@ == requested_location(self@, pos));
        let ghost c = location.0@;
        let r = self.settle(location);
        proof {
            if let PositionView::After(id, fallback) = pos {
                let anchor = if self@.locations.contains_key(id) { self@.locations[id] } else { fallback };
                if self@.items.contains_key(c) {
                    lemma_zeno_transitive(anchor, c, r.0@);
                }
            }
            if let PositionView::Before(id, fallback) = pos {
                let anchor = if self@.locations.contains_key(id) { self@.locations[id] } else { fallback };
                if self@.items.contains_key(anchor) && self@.items.contains_key(c) {
                    assert(zeno_less(c, anchor));
                    assert(self@.items.contains_key(anchor) && zeno_less(c, anchor));
                }
            }
        }
        r
    }

    /// An exact copy.
    fn copy_list(&self) -> (r: List<T>)
        ensures
            r@ == self@,
    {
        proof {
            use_type_invariant(self);
        }
        List { items: self.items.duplicate(), items_inv: self.items_inv.duplicate(), pool: self.pool.duplicate() }
    }

    /// The list with `value` inserted under `id` at the location for `position`.
    fn do_insert(&self, position: ListPosition, id: u128, value: T) -> (r: Result<List<T>, ListConflict<T>>)
        ensures
            !self@.items.contains_key(location_of(self@, position@)),
            r matches Ok(l) && {
                let loc = location_of(self@, position@);
                l@ == ListView {
                    items: self@.items.insert(loc, id),
                    locations: self@.locations.insert(id, loc),
                    pool: self@.pool.insert(id, value@),
                }
            },
    {
        let location = self.get_location(position);
        let mut new_self = self.copy_list();
        proof {
            use_type_invariant(&new_self);
        }
        let ghost start = new_self@;
        let mut items = new_self.items;
        let mut items_inv = new_self.items_inv;
        let mut pool = new_self.pool;
        items.insert(location.clone(), id);
        items_inv.insert(id, location);
        pool.insert(id, Item(value));
        Ok(List { items, items_inv, pool })
    }

    /// The list with the item `id` moved to `location`.
    fn do_move(&self, id: u128, location: ZenoIndex) -> (r: Result<List<T>, ListConflict<T>>)
        ensures
            match r {
                Ok(l) => self@.locations.contains_key(id) && l@ == (ListView {
                    items: self@.items.remove(self@.locations[id]).insert(location.0@, id),
                    locations: self@.locations.insert(id, location.0@),
                    pool: self@.pool,
                }),
                Err(e) => !self@.locations.contains_key(id) && e == ListConflict::<T>::ItemDoesNotExist(id),
            },
    {
        proof {
            use_type_invariant(self);
        }
        let old_location = match self.items_inv.get(&id) {
            Some(l) => l.clone(),
            None => {
                return Err(ListConflict::ItemDoesNotExist(id));
            },
        };
        let new_self = self.copy_list();
        proof {
            use_type_invariant(&new_self);
        }
        let mut items = new_self.items;
        let mut items_inv = new_self.items_inv;
        let pool = new_self.pool;
        items.remove(&old_location);
        items.insert(location.clone(), id);
        items_inv.insert(id, location);
        Ok(List { items, items_inv, pool })
    }

    /// The list without the item `id` (which need not be there).
    fn do_delete(&self, id: u128) -> (r: Result<List<T>, ListConflict<T>>)
        ensures
            r matches Ok(l) && l@ == (ListView {
                items: if self@.locations.contains_key(id) {
                    self@.items.remove(self@.locations[id])
                } else {
                    self@.items
                },
                locations: self@.locations.remove(id),
                pool: self@.pool.remove(id),
            }),
    {
        proof {
            use_type_invariant(self);
        }
        let new_self = self.copy_list();
        proof {
            use_type_invariant(&new_self);
        }
        let mut items = new_self.items;
        let mut items_inv = new_self.items_inv;
        let mut pool = new_self.pool;
        match self.items_inv.get(&id) {
            Some(location) => {
                items.remove(location);
            },
            None => {},
        }
        items_inv.remove(&id);
        pool.remove(&id);
        Ok(List { items, items_inv, pool })
    }

    /// The list with the item `id` replaced by the outcome of `transition`.
    fn do_apply(&self, id: u128, transition: &T::Transition) -> (r: Result<List<T>, ListConflict<T>>)
        ensures
            outcome_view(r) == list_next::<T>(self@, OperationView::Apply(id, transition@)),
    {
        proof {
            use_type_invariant(self);
        }
        match self.pool.get(&id) {
            Some(item) => match item.0.apply(transition) {
                Ok(v) => {
                    let new_self = self.copy_list();
                    proof {
                        use_type_invariant(&new_self);
                    }
                    let items = new_self.items;
                    let items_inv = new_self.items_inv;
                    let mut pool = new_self.pool;
                    pool.insert(id, Item(v));
                    let r = List { items, items_inv, pool };
                    assert(r@ =~= (ListView { pool: self@.pool.insert(id, v@), ..self@ }));
                    Ok(r)
                },
                Err(e) => Err(ListConflict::ChildConflict(e)),
            },
            None => Err(ListConflict::ItemDoesNotExist(id)),
        }
    }

    /// An operation inserting `value` between the items `id1` and `id2`, under a fresh identifier.
    pub fn insert_between(&self, id1: &u128, id2: &u128, value: T) -> (r: (u128, ListOperation<T>))
        requires
            self@.locations.contains_key(*id1),
            self@.locations.contains_key(*id2),
            zeno_less(self@.locations[*id1], self@.locations[*id2]),
        ensures
            r.1@ == OperationView::<T>::Insert(
                PositionView::AbsolutePosition(zeno_between(self@.locations[*id1], self@.locations[*id2])->Some_0),
                r.0,
                value@,
            ),
            is_v4_id(r.0),
    {
        proof {
            use_type_invariant(self);
        }
        let id = new_id();
        let loc1 = match self.items_inv.get(id1) {
            Some(l) => l,
            None => {
                proof {
                    assert(false);
                }
                return (id, ListOperation::Delete(id));
            },
        };
        let loc2 = match self.items_inv.get(id2) {
            Some(l) => l,
            None => {
                proof {
                    assert(false);
                }
                return (id, ListOperation::Delete(id));
            },
        };
        match index_between(loc1, loc2) {
            Some(new_loc) => (id, ListOperation::Insert(ListPosition::AbsolutePosition(new_loc), id, value)),
            None => {
                proof {
                    assert(false);
                }
                (id, ListOperation::Delete(id))
            },
        }
    }

    /// An operation appending `value`, under a fresh identifier.
    pub fn append(&self, value: T) -> (r: (u128, ListOperation<T>))
        ensures
            r.1@ == OperationView::<T>::Insert(PositionView::End, r.0, value@),
            is_v4_id(r.0),
    {
        let id = new_id();
        (id, ListOperation::Insert(ListPosition::End, id, value))
    }

    /// An operation prepending `value`, under a fresh identifier.
    pub fn prepend(&self, value: T) -> (r: (u128, ListOperation<T>))
        ensures
            r.1@ == OperationView::<T>::Insert(PositionView::Beginning, r.0, value@),
            is_v4_id(r.0),
    {
        let id = new_id();
        (id, ListOperation::Insert(ListPosition::Beginning, id, value))
    }

    /// An operation inserting `value` at `location`, under a fresh identifier.
    pub fn insert(&self, location: ZenoIndex, value: T) -> (r: (u128, ListOperation<T>))
        ensures
            r.1@ == OperationView::<T>::Insert(PositionView::AbsolutePosition(location.0@), r.0, value@),
            is_v4_id(r.0),
    {
        let id = new_id();
        (id, ListOperation::Insert(ListPosition::AbsolutePosition(location), id, value))
    }

    /// An operation deleting the item `id`.
    pub fn delete(&self, id: u128) -> (r: ListOperation<T>)
        ensures
            r@ == OperationView::<T>::Delete(id),
    {
        ListOperation::Delete(id)
    }

    /// An operation moving the item `id` to `new_location`.
    pub fn move_item(&self, id: u128, new_location: ZenoIndex) -> (r: ListOperation<T>)
        ensures
            r@ == OperationView::<T>::Move(id, new_location.0@),
    {
        ListOperation::Move(id, new_location)
    }


    /// An operation applying to the item `id` the transition that `fun`
    /// makes from its value.
    pub fn map_item<F: FnOnce(&T) -> T::Transition>(&self, id: u128, fun: F) -> (r: ListOperation<T>)
        requires
            self@.pool.contains_key(id),
            forall|x: &T| #[trigger] fun.requires((x,)),
        ensures
            r matches ListOperation::Apply(i, t) && i == id && exists|x: &T| x@ == self@.pool[id] && #[trigger] fun.ensures((x,), t),
    {
        proof {
            use_type_invariant(self);
        }
        match self.pool.get(&id) {
            Some(it) => {
                let t = fun(&it.0);
                assert((&it.0)@ == self@.pool[id]);
                assert(fun.ensures((&it.0,), t));
                assert(exists|x: &T| x@ == self@.pool[id] && #[trigger] fun.ensures((x,), t));
                let r = ListOperation::Apply(id, t);
                assert(r matches ListOperation::Apply(i, tt) && i == id && tt == t);
                r
            },
            None => {
                proof {
                    assert(false);
                }
                ListOperation::Delete(id)
            },
        }
    }

    /// The items in location order, each with its value, location and
    /// identifier.
    pub fn iter(&self) -> (r: Vec<ListItem<'_, T>>)
        requires
            forall|k: Seq<u8>| #[trigger] self@.items.contains_key(k) ==> self@.pool.contains_key(self@.items[k]),
        ensures
            forall|i: int, j: int| 0 <= i < j < r@.len() ==> zeno_less(#[trigger] r@[i].location.0@, #[trigger] r@[j].location.0@),
            forall|i: int| 0 <= i < r@.len() ==> {
                &&& self@.items.contains_key((#[trigger] r@[i]).location.0@)
                &&& self@.items[r@[i].location.0@] == r@[i].id
                &&& r@[i].value@ == self@.pool[r@[i].id]
            },
            forall|k: Seq<u8>| #[trigger] self@.items.contains_key(k) ==> exists|i: int| 0 <= i < r@.len() && (#[trigger] r@[i]).location.0@ == k,
    {
        proof {
            use_type_invariant(self);
        }
        let ghost ps = self.items.pairs();
        let mut r: Vec<ListItem<'_, T>> = Vec::new();
        let mut i: usize = 0;
        while i < self.items.entries.len()
            invariant
                self.items.wf(),
                self.pool.wf(),
                ps == self.items.pairs(),
                ps.len() == self.items.entries@.len(),
                i <= ps.len(),
                r@.len() == i,
                forall|k: Seq<u8>| #[trigger] self@.items.contains_key(k) ==> self@.pool.contains_key(self@.items[k]),
                forall|a: int| 0 <= a < i ==> {
                    &&& (#[trigger] r@[a]).location.0@ == ps[a].0
                    &&& r@[a].id == ps[a].1
                    &&& r@[a].value@ == self@.pool[ps[a].1]
                },
            decreases self.items.entries.len() - i,
        {
            let id = self.items.entries[i].1;
            proof {
                self.items.lemma_map_at(i as int);
                assert(ps[i as int].1 == id);
                assert(self@.items.contains_key(ps[i as int].0));
                assert(self@.pool.contains_key(id));
            }
            match self.pool.get(&id) {
                Some(item) => {
                    r.push(ListItem { value: &item.0, location: self.items.entries[i].0.clone(), id });
                },
                None => {
                    proof {
                        assert(false);
                    }
                },
            }
            i = i + 1;
        }
        proof {
            assert forall|a: int, b: int| 0 <= a < b < r@.len() implies zeno_less(#[trigger] r@[a].location.0@, #[trigger] r@[b].location.0@) by {
                assert(<ZenoIndex as KeyOrder>::less(ps[a].0, ps[b].0));
            }
            assert forall|a: int| 0 <= a < r@.len() implies {
                &&& self@.items.contains_key((#[trigger] r@[a]).location.0@)
                &&& self@.items[r@[a].location.0@] == r@[a].id
                &&& r@[a].value@ == self@.pool[r@[a].id]
            } by {
                self.items.lemma_map_at(a);
            }
            assert forall|k: Seq<u8>| #[trigger] self@.items.contains_key(k) implies exists|a: int| 0 <= a < r@.len() && (#[trigger] r@[a]).location.0@ == k by {
                self.items.lemma_map_contains(k);
                let a = choose|a: int| 0 <= a < ps.len() && (#[trigger] ps[a]).0 == k;
                assert(r@[a].location.0@ == k);
            }
        }
        r
    }

}

/// One item of a list, as iteration shows it.
pub struct ListItem<'a, T> {
    pub value: &'a T,
    pub location: ZenoIndex,
    pub id: u128,
}

impl<T: StateMachine> StateMachine for List<T> {
    type Transition = ListOperation<T>;
    type Conflict = ListConflict<T>;

    open spec fn next(state: ListView<T::V>, op: OperationView<T>) -> Result<ListView<T::V>, ListConflict<T>> {
        list_next::<T>(state, op)
    }

    /// An insertion never lands on the location of an item already there.
    fn apply(&self, transition: &ListOperation<T>) -> (r: Result<List<T>, ListConflict<T>>)
        ensures
            transition@ matches OperationView::Insert(pos, _, _) ==> !self@.items.contains_key(location_of(self@, pos)),
    {
        let r = match transition {
            ListOperation::Insert(position, id, value) => {
                let pos = copy_position(position);
                self.do_insert(pos, *id, value.copy_state())
            },
            ListOperation::Delete(id) => self.do_delete(*id),
            ListOperation::Move(id, location) => self.do_move(*id, location.clone()),
            ListOperation::Apply(id, t) => self.do_apply(*id, t),
        };
        proof {
            assert(outcome_view(r) == list_next::<T>(self@, transition@));
        }
        r
    }

    fn copy_transition(transition: &ListOperation<T>) -> (r: ListOperation<T>) {
        match transition {
            ListOperation::Insert(position, id, value) => ListOperation::Insert(copy_position(position), *id, value.copy_state()),
            ListOperation::Delete(id) => ListOperation::Delete(*id),
            ListOperation::Move(id, location) => ListOperation::Move(*id, location.clone()),
            ListOperation::Apply(id, t) => ListOperation::Apply(*id, T::copy_transition(t)),
        }
    }

    fn copy_state(&self) -> (r: List<T>) {
        self.copy_list()
    }
}

/// A copy of a position.
fn copy_position(p: &ListPosition) -> (r: ListPosition)
    ensures
        r@ == p@,
{
    match p {
        ListPosition::Beginning => ListPosition::Beginning,
        ListPosition::End => ListPosition::End,
        ListPosition::AbsolutePosition(z) => ListPosition::AbsolutePosition(z.clone()),
        ListPosition::Before(id, z) => ListPosition::Before(*id, z.clone()),
        ListPosition::After(id, z) => ListPosition::After(*id, z.clone()),
    }
}

impl<T: StateMachine> Default for List<T> {
    fn default() -> (r: List<T>)
        ensures
            r@.items == Map::<Seq<u8>, u128>::empty(),
            r@.locations == Map::<u128, Seq<u8>>::empty(),
            r@.pool == Map::<u128, T::V>::empty(),
    {
        List::new()
    }
}

} // verus!
