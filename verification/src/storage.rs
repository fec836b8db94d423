//! The store: a mapping from keys to values that may expire.

use vstd::prelude::*;
use crate::bytes::{same_bytes, to_vec};

verus! {

/// What the store holds under a key.
#[derive(Clone, Debug, Eq, PartialEq, Hash)]
pub struct StorageEntry {
    /// The value.
    pub value: Vec<u8>,
    /// The instant at which the value expires, in milliseconds since the epoch;
    /// `None` when it never does.
    pub expires_at: Option<u64>,
}

/// An entry as a mathematical value.
pub struct EntryModel {
    pub value: Seq<u8>,
    pub expires_at: Option<u64>,
}

/// The store as a mathematical value: a mapping from keys to entries.
pub type StoreModel = Map<Seq<u8>, EntryModel>;

impl EntryModel {
    /// True when the entry is to be treated as absent at the instant `now_ms`:
    /// its expiry is at or before that instant.
    pub open spec fn expired(self, now_ms: u64) -> bool {
        match self.expires_at {
            Some(at) => at <= now_ms,
            None => false,
        }
    }
}

impl View for StorageEntry {
    type V = EntryModel;

    open spec fn view(&self) -> EntryModel {
        EntryModel { value: self.value@, expires_at: self.expires_at }
    }
}

impl StorageEntry {
    /// An entry with the given value and expiry.
    pub fn new(value: Vec<u8>, expires_at: Option<u64>) -> (entry: Self)
        ensures
            entry.value == value,
            entry.expires_at == expires_at,
    {
        Self { value, expires_at }
    }

    /// True when the entry is to be treated as absent at the instant `now_ms`.
    pub fn is_expired(&self, now_ms: u64) -> (r: bool)
        ensures
            r == self@.expired(now_ms),
    {
        match self.expires_at {
            Some(at) => at <= now_ms,
            None => false,
        }
    }
}

/// A key of the store.
#[derive(Clone, Debug, PartialEq, Eq, Hash)]
pub struct StorageKey(pub Vec<u8>);

impl View for StorageKey {
    type V = Seq<u8>;

    open spec fn view(&self) -> Seq<u8> {
        self.0@
    }
}

impl From<Vec<u8>> for StorageKey {
    fn from(vec: Vec<u8>) -> (key: Self) {
        StorageKey(vec)
    }
}

impl vstd::std_specs::convert::FromSpecImpl<Vec<u8>> for StorageKey {
    open spec fn obeys_from_spec() -> bool {
        true
    }

    open spec fn from_spec(vec: Vec<u8>) -> Self {
        StorageKey(vec)
    }
}

impl From<StorageKey> for Vec<u8> {
    fn from(key: StorageKey) -> (vec: Self) {
        key.0
    }
}

impl vstd::std_specs::convert::FromSpecImpl<StorageKey> for Vec<u8> {
    open spec fn obeys_from_spec() -> bool {
        true
    }

    open spec fn from_spec(key: StorageKey) -> Self {
        key.0
    }
}

/// A key with what is stored under it.
pub struct Slot {
    pub key: Vec<u8>,
    pub entry: StorageEntry,
}

/// The mapping that a sequence of slots denotes; of two slots with one key the
/// later one counts.
pub open spec fn slots_map(slots: Seq<Slot>) -> StoreModel
    decreases slots.len(),
{
    if slots.len() == 0 {
        Map::empty()
    } else {
        slots_map(slots.drop_last()).insert(slots.last().key@, slots.last().entry@)
    }
}

/// True when no two slots have the same key.
pub open spec fn distinct_keys(slots: Seq<Slot>) -> bool {
    forall|i: int, j: int|
        0 <= i < slots.len() && 0 <= j < slots.len() && i != j ==> (#[trigger] slots[i]).key@ != (
        #[trigger] slots[j]).key@
}

/// The mapping holds exactly the keys of the slots.
pub proof fn lemma_slots_map_keys(slots: Seq<Slot>, key: Seq<u8>)
    ensures
        slots_map(slots).contains_key(key) <==> exists|i: int|
            0 <= i < slots.len() && (#[trigger] slots[i]).key@ == key,
    decreases slots.len(),
{
    if slots.len() > 0 {
        let front = slots.drop_last();
        lemma_slots_map_keys(front, key);
        if slots_map(slots).contains_key(key) {
            if slots.last().key@ == key {
                assert(slots[slots.len() - 1].key@ == key);
            } else {
                let i = choose|i: int| 0 <= i < front.len() && (#[trigger] front[i]).key@ == key;
                assert(slots[i].key@ == key);
            }
        }
        if exists|i: int| 0 <= i < slots.len() && (#[trigger] slots[i]).key@ == key {
            let i = choose|i: int| 0 <= i < slots.len() && (#[trigger] slots[i]).key@ == key;
            if i < front.len() {
                assert(front[i].key@ == key);
            }
        }
    }
}

/// With distinct keys, the mapping holds under each slot's key that slot's
/// entry.
pub proof fn lemma_slots_map_entry(slots: Seq<Slot>, i: int)
    requires
        distinct_keys(slots),
        0 <= i < slots.len(),
    ensures
        slots_map(slots).contains_key(slots[i].key@),
        slots_map(slots)[slots[i].key@] == slots[i].entry@,
    decreases slots.len(),
{
    let front = slots.drop_last();
    if i < slots.len() - 1 {
        assert(distinct_keys(front)) by {
            assert forall|a: int, b: int|
                0 <= a < front.len() && 0 <= b < front.len() && a != b implies (
            #[trigger] front[a]).key@ != (#[trigger] front[b]).key@ by {
                assert(front[a] == slots[a]);
                assert(front[b] == slots[b]);
            }
        }
        lemma_slots_map_entry(front, i);
        assert(front[i] == slots[i]);
        assert(slots[slots.len() - 1].key@ != slots[i].key@);
    }
}

/// With distinct keys, replacing the entry of a slot stores the new entry
/// under the slot's key and changes nothing else.
pub proof fn lemma_slots_map_update(slots: Seq<Slot>, i: int, slot: Slot)
    requires
        distinct_keys(slots),
        0 <= i < slots.len(),
        slot.key@ == slots[i].key@,
    ensures
        distinct_keys(slots.update(i, slot)),
        slots_map(slots.update(i, slot)) == slots_map(slots).insert(slot.key@, slot.entry@),
    decreases slots.len(),
{
    let after = slots.update(i, slot);
    assert(distinct_keys(after)) by {
        assert forall|a: int, b: int|
            0 <= a < after.len() && 0 <= b < after.len() && a != b implies (#[trigger] after[a]).key@
            != (#[trigger] after[b]).key@ by {
            assert(after[a].key@ == slots[a].key@);
            assert(after[b].key@ == slots[b].key@);
        }
    }
    let front = slots.drop_last();
    if i == slots.len() - 1 {
        assert(after.drop_last() == front);
        assert(slots_map(after) =~= slots_map(slots).insert(slot.key@, slot.entry@));
    } else {
        assert(distinct_keys(front)) by {
            assert forall|a: int, b: int|
                0 <= a < front.len() && 0 <= b < front.len() && a != b implies (
            #[trigger] front[a]).key@ != (#[trigger] front[b]).key@ by {
                assert(front[a] == slots[a]);
                assert(front[b] == slots[b]);
            }
        }
        assert(front[i] == slots[i]);
        lemma_slots_map_update(front, i, slot);
        assert(after.drop_last() == front.update(i, slot));
        assert(after.last() == slots.last());
        assert(slots[slots.len() - 1].key@ != slots[i].key@);
        assert(slots_map(after) =~= slots_map(slots).insert(slot.key@, slot.entry@));
    }
}

/// The store. Every key occurs once; setting a key that is there replaces what
/// was stored under it.
pub struct Storage {
    slots: Vec<Slot>,
}

impl View for Storage {
    type V = StoreModel;

    /// The mapping from keys to entries.
    closed spec fn view(&self) -> StoreModel {
        slots_map(self.slots@)
    }
}

impl Storage {
    #[verifier::type_invariant]
    spec fn well_formed(self) -> bool {
        distinct_keys(self.slots@)
    }

    /// An empty store.
    pub fn new() -> (storage: Self)
        ensures
            storage@ == StoreModel::empty(),
    {
        Storage { slots: Vec::new() }
    }

    /// The index of the slot with the given key, if there is one.
    fn position(&self, key: &[u8]) -> (r: Option<usize>)
        ensures
            match r {
                Some(i) => i < self.slots@.len() && self.slots@[i as int].key@ == key@,
                None => forall|i: int| 0 <= i < self.slots@.len() ==> (#[trigger] self.slots@[i]).key@
                    != key@,
            },
    {
        let mut i: usize = 0;
        while i < self.slots.len()
            invariant
                i <= self.slots@.len(),
                forall|j: int| 0 <= j < i ==> (#[trigger] self.slots@[j]).key@ != key@,
            decreases self.slots.len() - i,
        {
            if same_bytes(self.slots[i].key.as_slice(), key) {
                return Some(i);
            }
            i += 1;
        }
        None
    }

    /// Stores `entry` under `key`, in place of what was stored under it, if
    /// anything was. Nothing else changes.
    pub fn insert(&mut self, key: StorageKey, entry: StorageEntry)
        ensures
            final(self)@ == old(self)@.insert(key@, entry@),
    {
        proof {
            use_type_invariant(&*self);
        }
        let found = self.position(key.0.as_slice());
        let slot = Slot { key: key.0, entry };
        let mut slots: Vec<Slot> = Vec::new();
        core::mem::swap(&mut slots, &mut self.slots);
        match found {
            Some(i) => {
                proof {
                    lemma_slots_map_update(slots@, i as int, slot);
                }
                slots.set(i, slot);
            },
            None => {
                proof {
                    let after = slots@.push(slot);
                    assert(after.drop_last() == slots@);
                    assert(distinct_keys(after)) by {
                        assert forall|a: int, b: int|
                            0 <= a < after.len() && 0 <= b < after.len() && a != b implies (
                        #[trigger] after[a]).key@ != (#[trigger] after[b]).key@ by {
                            if a < slots@.len() {
                                assert(after[a] == slots@[a]);
                            }
                            if b < slots@.len() {
                                assert(after[b] == slots@[b]);
                            }
                        }
                    }
                }
                slots.push(slot);
            },
        }
        self.slots = slots;
    }

    /// What is stored under `key`, expired or not.
    pub fn get(&self, key: StorageKey) -> (r: Option<StorageEntry>)
        ensures
            match r {
                Some(entry) => self@.contains_key(key@) && entry@ == self@[key@],
                None => !self@.contains_key(key@),
            },
    {
        proof {
            use_type_invariant(self);
            lemma_slots_map_keys(self.slots@, key@);
        }
        match self.position(key.0.as_slice()) {
            Some(i) => {
                proof {
                    lemma_slots_map_entry(self.slots@, i as int);
                }
                let held = &self.slots[i].entry;
                Some(
                    StorageEntry {
                        value: to_vec(held.value.as_slice()),
                        expires_at: held.expires_at,
                    },
                )
            },
            None => None,
        }
    }
}

impl Default for Storage {
    fn default() -> (storage: Self)
        ensures
            storage@ == StoreModel::empty(),
    {
        Storage::new()
    }
}

} // verus!
