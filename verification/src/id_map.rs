//! A map keyed by text.

use vstd::hash_map::StringHashMap;
use vstd::prelude::*;

verus! {

/// A map from IDs to values.
#[verifier::reject_recursive_types(V)]
pub struct IdMap<V> {
    entries: StringHashMap<V>,
}

impl<V: DeepView> IdMap<V> {
    /// The entries, by the models of keys and values.
    pub closed spec fn map(&self) -> Map<Seq<char>, V::V> {
        self.entries@.map_values(|v: V| v.deep_view())
    }

    /// A map without entries.
    pub fn new() -> (r: IdMap<V>)
        ensures
            r.map() == Map::<Seq<char>, V::V>::empty(),
    {
        let r: IdMap<V> = IdMap { entries: StringHashMap::new() };
        assert(r.map() =~= Map::<Seq<char>, V::V>::empty());
        r
    }

    /// Enters `value` under `key`, in place of what was there.
    pub fn insert(&mut self, key: String, value: V)
        ensures
            final(self).map() == old(self).map().insert(key@, value.deep_view()),
    {
        let ghost before = self.map();
        self.entries.insert(key, value);
        assert(self.map() =~= before.insert(key@, value.deep_view()));
    }

    /// The value under `key`.
    pub fn get(&self, key: &str) -> (r: Option<&V>)
        ensures
            match r {
                Some(v) => self.map().dom().contains(key@) && self.map()[key@] == v.deep_view(),
                None => !self.map().dom().contains(key@),
            },
    {
        self.entries.get(key)
    }

    /// Whether there is a value under `key`.
    pub fn contains(&self, key: &str) -> (r: bool)
        ensures
            r == self.map().dom().contains(key@),
    {
        self.entries.contains_key(key)
    }
}

} // verus!
