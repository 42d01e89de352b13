//! The entries that one layer of a store holds under one prefix.

use crate::order::{lemma_bytes_model, Model};
use crate::sorted_map::SortedMap;
use vstd::prelude::*;

verus! {

broadcast use lemma_bytes_model;

/// A value stored under a key, or a marker that the key was deleted.
#[derive(Debug)]
pub enum PrefixMapValue {
    Value(Vec<u8>),
    Deleted,
}

impl Model for PrefixMapValue {
    /// `Some` bytes for a value, `None` for a deletion marker.
    type M = Option<Seq<u8>>;

    open spec fn model(&self) -> Option<Seq<u8>> {
        match self {
            PrefixMapValue::Value(v) => Some(v@),
            PrefixMapValue::Deleted => None,
        }
    }

    fn duplicate(&self) -> (r: PrefixMapValue) {
        match self {
            PrefixMapValue::Value(v) => {
                let c = v.clone();
                assert(c@ =~= v@);
                PrefixMapValue::Value(c)
            },
            PrefixMapValue::Deleted => PrefixMapValue::Deleted,
        }
    }
}

/// What a layer says of a prefix: either its own entries, or that the whole
/// prefix was deleted.
pub enum PrefixMapModel {
    Children(Map<Seq<u8>, Option<Seq<u8>>>),
    Deleted,
}

/// The entries under one prefix: the direct children, or a marker that
/// the prefix was deleted.
#[derive(Debug)]
pub enum PrefixMap {
    Children(SortedMap<Vec<u8>, PrefixMapValue>),
    DeletedPrefixMap,
}

/// What a prefix map says of `key`: `Some(Some(v))` for a value,
/// `Some(None)` for a deletion, `None` when it says nothing.
pub open spec fn prefix_map_get(m: PrefixMapModel, key: Seq<u8>) -> Option<Option<Seq<u8>>> {
    match m {
        PrefixMapModel::Children(c) => if c.contains_key(key) {
            Some(c[key])
        } else {
            None
        },
        PrefixMapModel::Deleted => Some(None),
    }
}

/// The prefix map after storing `value` under `key`. Storing a deletion in
/// a deleted prefix changes nothing; storing a value there starts a fresh
/// map holding only that value.
pub open spec fn prefix_map_insert(m: PrefixMapModel, key: Seq<u8>, value: Option<Seq<u8>>) -> PrefixMapModel {
    match m {
        PrefixMapModel::Children(c) => PrefixMapModel::Children(c.insert(key, value)),
        PrefixMapModel::Deleted => if value is None {
            PrefixMapModel::Deleted
        } else {
            PrefixMapModel::Children(Map::empty().insert(key, value))
        },
    }
}

impl PrefixMap {
    pub open spec fn wf(&self) -> bool {
        match self {
            PrefixMap::Children(c) => c.wf(),
            PrefixMap::DeletedPrefixMap => true,
        }
    }

    /// An empty map of children.
    pub fn new() -> (r: PrefixMap)
        ensures
            r.wf(),
            r.model() == PrefixMapModel::Children(Map::empty()),
    {
        PrefixMap::Children(SortedMap::new())
    }

    /// What this map says of `key`.
    pub fn get(&self, key: &Vec<u8>) -> (r: Option<PrefixMapValue>)
        requires
            self.wf(),
        ensures
            r.model() == prefix_map_get(self.model(), key@),
    {
        match self {
            PrefixMap::Children(children) => match children.get(key) {
                Some(v) => Some(v.duplicate()),
                None => None,
            },
            PrefixMap::DeletedPrefixMap => Some(PrefixMapValue::Deleted),
        }
    }

    /// Stores `value` under `key`.
    pub fn insert(&mut self, key: Vec<u8>, value: PrefixMapValue)
        requires
            old(self).wf(),
        ensures
            final(self).wf(),
            final(self).model() == prefix_map_insert(old(self).model(), key@, value.model()),
    {
        let ghost km = key@;
        let ghost vm = value.model();
        match self {
            PrefixMap::Children(children) => {
                children.insert(key, value);
            },
            PrefixMap::DeletedPrefixMap => {
                if let PrefixMapValue::Deleted = value {
                    return;
                }
                let mut new_children = SortedMap::new();
                new_children.insert(key, value);
                *self = PrefixMap::Children(new_children);
            },
        }
    }

    /// An exact copy.
    pub fn copy(&self) -> (r: PrefixMap)
        ensures
            r.model() == self.model(),
            r.wf() == self.wf(),
    {
        match self {
            PrefixMap::Children(c) => PrefixMap::Children(c.duplicate()),
            PrefixMap::DeletedPrefixMap => PrefixMap::DeletedPrefixMap,
        }
    }
}

impl Model for PrefixMap {
    type M = PrefixMapModel;

    open spec fn model(&self) -> PrefixMapModel {
        match self {
            PrefixMap::Children(c) => PrefixMapModel::Children(c.map()),
            PrefixMap::DeletedPrefixMap => PrefixMapModel::Deleted,
        }
    }

    fn duplicate(&self) -> (r: PrefixMap) {
        self.copy()
    }
}

impl Default for PrefixMap {
    fn default() -> (r: PrefixMap)
        ensures
            r.wf(),
            r.model() == PrefixMapModel::Children(Map::empty()),
    {
        PrefixMap::new()
    }
}

} // verus!
