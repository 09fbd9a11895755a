//! An in-memory store of string keys and values.
use vstd::prelude::*;
use vstd::hash_map::StringHashMap;

verus! {

/// `KvStore` stores string key/value pairs in memory; nothing is written to
/// disk.
pub struct KvStore {
    map: StringHashMap<String>,
}

impl View for KvStore {
    type V = Map<Seq<char>, Seq<char>>;

    closed spec fn view(&self) -> Map<Seq<char>, Seq<char>> {
        self.map@.map_values(|v: String| v@)
    }
}

impl KvStore {
    /// An empty store.
    pub fn new() -> (store: KvStore)
        ensures
            store@ == Map::<Seq<char>, Seq<char>>::empty(),
    {
        let store = KvStore { map: StringHashMap::new() };
        assert(store@ =~= Map::<Seq<char>, Seq<char>>::empty());
        store
    }

    /// Sets the value of a key; a value already there is overwritten.
    pub fn set(&mut self, key: String, value: String)
        ensures
            final(self)@ == old(self)@.insert(key@, value@),
    {
        let ghost k = key@;
        let ghost v = value@;
        self.map.insert(key, value);
        assert(self@ =~= old(self)@.insert(k, v));
    }

    /// The value of a key; `None` when the key is not there.
    pub fn get(&self, key: String) -> (value: Option<String>)
        ensures
            match value {
                Some(v) => self@.contains_key(key@) && v@ == self@[key@],
                None => !self@.contains_key(key@),
            },
    {
        match self.map.get(key.as_str()) {
            Some(v) => Some(v.clone()),
            None => None,
        }
    }

    /// Removes a key; nothing happens when it is not there.
    pub fn remove(&mut self, key: String)
        ensures
            final(self)@ == old(self)@.remove(key@),
    {
        self.map.remove(key.as_str());
        assert(self@ =~= old(self)@.remove(key@));
    }
}

} // verus!
