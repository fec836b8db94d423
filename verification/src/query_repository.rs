//! The reading side of the store. Expiry is enforced here, on read: an entry
//! whose expiry is at or before the instant of reading is treated as absent.
//! Nothing sweeps the store: an expired entry keeps its place until its key is
//! written again.

use vstd::prelude::*;
use crate::clock::now_ms;
use crate::resp_command::optional_bytes;
use crate::storage::{Storage, StorageKey, StoreModel};

verus! {

/// The value that a read of `key` at the instant `now_ms` gives: what is stored
/// under `key`, unless nothing is or it has expired by then.
pub open spec fn live_value(store: StoreModel, key: Seq<u8>, now_ms: u64) -> Option<Seq<u8>> {
    if store.contains_key(key) && !store[key].expired(now_ms) {
        Some(store[key].value)
    } else {
        None
    }
}

/// Read access to a store.
pub struct QueryRepository<'a> {
    /// The store that is read.
    pub storage: &'a Storage,
}

impl<'a> QueryRepository<'a> {
    /// Read access to `storage`.
    pub fn new(storage: &'a Storage) -> (repository: Self)
        ensures
            repository.storage == storage,
    {
        Self { storage }
    }

    /// The value stored under `key` as of the instant `now_ms`: absent where
    /// nothing is stored or what is stored has expired by then.
    pub fn get_at(&self, key: Vec<u8>, now_ms: u64) -> (r: Option<Vec<u8>>)
        ensures
            optional_bytes(r) == live_value(self.storage@, key@, now_ms),
    {
        match self.storage.get(StorageKey::from(key)) {
            Some(entry) => {
                if entry.is_expired(now_ms) {
                    None
                } else {
                    Some(entry.value)
                }
            },
            None => None,
        }
    }

    /// The value stored under `key` as of the present instant, which it reads
    /// from the wall clock.
    pub fn get(&self, key: Vec<u8>) -> (r: Option<Vec<u8>>)
        ensures
            exists|now_ms: u64|
                optional_bytes(r) == #[trigger] live_value(self.storage@, key@, now_ms),
    {
        let now = now_ms();
        self.get_at(key, now)
    }
}

} // verus!
