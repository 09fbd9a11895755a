//! The interface of a key/value storage engine.
use vstd::prelude::*;
use super::error::KvsError;
use super::kv::KvStore;

verus! {

/// A key/value storage engine.
pub trait KvsEngine {
    /// The pairs the engine holds.
    spec fn contents(&self) -> Map<Seq<char>, Seq<char>>;

    /// Whether the engine keeps its pairs in memory only, so that nothing
    /// outside it, such as a disk, can make a write or a read fail.
    spec fn in_memory(&self) -> bool;

    /// Sets the value of a key; a value already there is overwritten. A
    /// failed write changes nothing.
    fn set(&mut self, key: String, value: String) -> (r: Result<(), KvsError>)
        ensures
            match r {
                Ok(()) => final(self).contents() == old(self).contents().insert(key@, value@),
                Err(_) => final(self).contents() == old(self).contents(),
            },
            old(self).in_memory() ==> r is Ok,
    ;

    /// The value of a key; `None` when the key is not there.
    fn get(&mut self, key: String) -> (r: Result<Option<String>, KvsError>)
        ensures
            final(self).contents() == old(self).contents(),
            old(self).in_memory() ==> r is Ok,
            r matches Ok(v) ==> match v {
                Some(v) => old(self).contents().contains_key(key@) && v@ == old(
                    self,
                ).contents()[key@],
                None => !old(self).contents().contains_key(key@),
            },
    ;

    /// Removes a key.
    ///
    /// # Errors
    ///
    /// `KvsError::KeyNotFound` when the key is not there.
    fn remove(&mut self, key: String) -> (r: Result<(), KvsError>)
        ensures
            match r {
                Ok(()) => old(self).contents().contains_key(key@) && final(self).contents()
                    == old(self).contents().remove(key@),
                Err(e) => final(self).contents() == old(self).contents() && (e
                    is KeyNotFound ==> !old(self).contents().contains_key(key@)),
            },
            !old(self).contents().contains_key(key@) ==> r is Err,
    ;
}

impl KvsEngine for KvStore {
    open spec fn contents(&self) -> Map<Seq<char>, Seq<char>> {
        self@
    }

    open spec fn in_memory(&self) -> bool {
        true
    }

    fn set(&mut self, key: String, value: String) -> (res: Result<(), KvsError>) {
        KvStore::set(self, key, value);
        Ok(())
    }

    fn get(&mut self, key: String) -> (res: Result<Option<String>, KvsError>) {
        Ok(KvStore::get(self, key))
    }

    fn remove(&mut self, key: String) -> (res: Result<(), KvsError>) {
        match KvStore::get(self, key.clone()) {
            Some(_) => {
                KvStore::remove(self, key);
                Ok(())
            },
            None => Err(KvsError::KeyNotFound),
        }
    }
}

} // verus!
