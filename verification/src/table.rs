//! The handle table: a hash map from list handles to list records.
//!
//! The map itself comes from the `fnv` crate (a `std::collections::HashMap`
//! keyed by the FNV-1a hasher); this module wraps the handful of map
//! operations the set needs behind contracts stated over the uninterpreted
//! contents function [`table_contents`].

use vstd::prelude::*;

use crate::indices::ListIndex;
use crate::records::LinkedList;

verus! {

/// The mapping from live list handles to their records.
///
/// Holds an `fnv::FnvHashMap`, which Verus does not look into; everything
/// the set proves about the table rests on the contracts of the methods
/// below.
#[verifier::external_body]
pub struct ListTable {
    map: fnv::FnvHashMap<ListIndex, LinkedList>,
}

/// The entries held by a [`ListTable`], as a mathematical map.
pub uninterp spec fn table_contents(t: ListTable) -> Map<ListIndex, LinkedList>;

/// The contents of a table with no entries.
pub open spec fn empty_table() -> Map<ListIndex, LinkedList> {
    Map::empty()
}

impl ListTable {
    /// Relies on `FnvHashMap::default` (fnv): an empty map.
    #[verifier::external_body]
    pub(crate) fn new() -> (r: Self)
        ensures
            table_contents(r) == empty_table(),
    {
        ListTable { map: fnv::FnvHashMap::default() }
    }

    /// Relies on `HashMap::len`: the number of entries in the map.
    #[verifier::external_body]
    pub(crate) fn len(&self) -> (r: usize)
        ensures
            r == table_contents(*self).dom().len(),
    {
        self.map.len()
    }

    /// Relies on `HashMap::get`: the entry at the key, if the key is
    /// present.  `ListIndex` hashes and compares by its single `usize`
    /// field, and fnv's hasher is deterministic, so a key is present
    /// exactly when an equal key was inserted and not removed.
    #[verifier::external_body]
    pub(crate) fn get(&self, k: ListIndex) -> (r: Option<&LinkedList>)
        ensures
            r == if table_contents(*self).dom().contains(k) {
                Some(&table_contents(*self)[k])
            } else {
                None::<&LinkedList>
            },
    {
        self.map.get(&k)
    }

    /// Relies on `HashMap::insert`: maps the key to the value, replacing
    /// any earlier entry at an equal key.
    #[verifier::external_body]
    pub(crate) fn insert(&mut self, k: ListIndex, v: LinkedList)
        ensures
            table_contents(*final(self)) == table_contents(*old(self)).insert(k, v),
    {
        self.map.insert(k, v);
    }

    /// Relies on `HashMap::remove`: deletes the entry at an equal key, if
    /// one is present.
    #[verifier::external_body]
    pub(crate) fn remove(&mut self, k: ListIndex)
        ensures
            table_contents(*final(self)) == table_contents(*old(self)).remove(k),
    {
        self.map.remove(&k);
    }

    /// Relies on `HashMap::clear`: removes every entry.
    #[verifier::external_body]
    pub(crate) fn clear(&mut self)
        ensures
            table_contents(*final(self)) == empty_table(),
    {
        self.map.clear();
    }

    /// Relies on `HashMap::keys`: every key exactly once, in an
    /// unspecified order.
    #[verifier::external_body]
    pub(crate) fn keys_vec(&self) -> (r: Vec<ListIndex>)
        ensures
            r@.no_duplicates(),
            forall|k: ListIndex| #[trigger]
                r@.contains(k) <==> table_contents(*self).dom().contains(k),
    {
        self.map.keys().copied().collect()
    }
}

} // verus!
