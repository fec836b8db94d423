//! What reads see of writes. The store is changed by one write at a time, so
//! whatever runs side by side amounts to the writes in some order; the
//! statements here hold of every order.

use vstd::prelude::*;
use crate::command_repository::{expiry, written, TTL};
use crate::query_repository::live_value;
use crate::storage::{EntryModel, StoreModel};

verus! {

/// One write: a value stored under a key at some instant.
pub struct Write {
    pub key: Seq<u8>,
    pub value: Seq<u8>,
    pub ttl: TTL,
    pub now_ms: u64,
}

/// The store after the given writes, carried out in order.
pub open spec fn apply_writes(store: StoreModel, writes: Seq<Write>) -> StoreModel
    decreases writes.len(),
{
    if writes.len() == 0 {
        store
    } else {
        let w = writes.last();
        written(apply_writes(store, writes.drop_last()), w.key, w.value, w.ttl, w.now_ms)
    }
}

/// A value written to live for ever is read back at every later instant,
/// whatever the store held before.
pub proof fn lemma_read_after_write(
    store: StoreModel,
    key: Seq<u8>,
    value: Seq<u8>,
    written_at: u64,
    read_at: u64,
)
    ensures
        live_value(written(store, key, value, TTL::Indefinite, written_at), key, read_at) == Some(
            value,
        ),
{
}

/// A later write under the same key replaces value and expiry together: the
/// store is as if the earlier write had not been.
pub proof fn lemma_later_write_wins(
    store: StoreModel,
    key: Seq<u8>,
    first: Seq<u8>,
    first_ttl: TTL,
    first_at: u64,
    second: Seq<u8>,
    second_ttl: TTL,
    second_at: u64,
)
    ensures
        written(written(store, key, first, first_ttl, first_at), key, second, second_ttl, second_at)
            == written(store, key, second, second_ttl, second_at),
{
    assert(written(
        written(store, key, first, first_ttl, first_at),
        key,
        second,
        second_ttl,
        second_at,
    ) =~= written(store, key, second, second_ttl, second_at));
}

/// A read sees the value written unless it has expired: a value whose expiry
/// is at or before the instant of reading is absent, any other is there.
pub proof fn lemma_read_respects_expiry(
    store: StoreModel,
    key: Seq<u8>,
    value: Seq<u8>,
    ttl: TTL,
    written_at: u64,
    read_at: u64,
)
    ensures
        live_value(written(store, key, value, ttl, written_at), key, read_at) == (match expiry(
            ttl,
            written_at,
        ) {
            Some(at) => if at <= read_at {
                None
            } else {
                Some(value)
            },
            None => Some(value),
        }),
{
}

/// A write under one key changes nothing that a read of another key sees.
pub proof fn lemma_write_leaves_other_keys(
    store: StoreModel,
    key: Seq<u8>,
    value: Seq<u8>,
    ttl: TTL,
    written_at: u64,
    other: Seq<u8>,
    read_at: u64,
)
    requires
        other != key,
    ensures
        live_value(written(store, key, value, ttl, written_at), other, read_at) == live_value(
            store,
            other,
            read_at,
        ),
{
}

/// A key that was never written is absent: in a store that started empty, a
/// read of a key that none of the writes so far had gives nothing.
pub proof fn lemma_never_written_is_absent(writes: Seq<Write>, key: Seq<u8>, read_at: u64)
    requires
        forall|i: int| 0 <= i < writes.len() ==> (#[trigger] writes[i]).key != key,
    ensures
        live_value(apply_writes(Map::empty(), writes), key, read_at) is None,
    decreases writes.len(),
{
    if writes.len() > 0 {
        let front = writes.drop_last();
        assert forall|i: int| 0 <= i < front.len() implies (#[trigger] front[i]).key != key by {
            assert(front[i] == writes[i]);
        }
        lemma_never_written_is_absent(front, key, read_at);
        assert(writes[writes.len() - 1].key != key);
    }
}

/// After any writes, the store holds under a key what the last write under
/// that key stored, if no later write had the same key.
pub proof fn lemma_last_write_is_stored(store: StoreModel, writes: Seq<Write>, i: int)
    requires
        0 <= i < writes.len(),
        forall|j: int| i < j < writes.len() ==> (#[trigger] writes[j]).key != writes[i].key,
    ensures
        apply_writes(store, writes).contains_key(writes[i].key),
        apply_writes(store, writes)[writes[i].key] == (EntryModel {
            value: writes[i].value,
            expires_at: expiry(writes[i].ttl, writes[i].now_ms),
        }),
    decreases writes.len(),
{
    if i < writes.len() - 1 {
        let front = writes.drop_last();
        assert(front[i] == writes[i]);
        assert forall|j: int| i < j < front.len() implies (#[trigger] front[j]).key
            != front[i].key by {
            assert(front[j] == writes[j]);
        }
        lemma_last_write_is_stored(store, front, i);
        assert(writes[writes.len() - 1].key != writes[i].key);
    }
}

/// Writes under distinct keys all persist, in whatever order they are carried
/// out: afterwards the store holds under each key what was written under it.
pub proof fn lemma_distinct_writes_persist(store: StoreModel, writes: Seq<Write>, i: int)
    requires
        0 <= i < writes.len(),
        forall|a: int, b: int|
            0 <= a < writes.len() && 0 <= b < writes.len() && a != b ==> (#[trigger] writes[a]).key
                != (#[trigger] writes[b]).key,
    ensures
        apply_writes(store, writes).contains_key(writes[i].key),
        apply_writes(store, writes)[writes[i].key] == (EntryModel {
            value: writes[i].value,
            expires_at: expiry(writes[i].ttl, writes[i].now_ms),
        }),
{
    lemma_last_write_is_stored(store, writes, i);
}

/// Writes under one key leave exactly one of their values stored, whole: the
/// value of the write that came last in the order, with that write's expiry.
pub proof fn lemma_same_key_writes_leave_one(
    store: StoreModel,
    writes: Seq<Write>,
    key: Seq<u8>,
)
    requires
        writes.len() > 0,
        forall|i: int| 0 <= i < writes.len() ==> (#[trigger] writes[i]).key == key,
    ensures
        apply_writes(store, writes).contains_key(key),
        apply_writes(store, writes)[key] == (EntryModel {
            value: writes.last().value,
            expires_at: expiry(writes.last().ttl, writes.last().now_ms),
        }),
        exists|i: int|
            0 <= i < writes.len() && apply_writes(store, writes)[key].value == (
            #[trigger] writes[i]).value,
{
    assert(writes[writes.len() - 1].key == key);
    assert(apply_writes(store, writes)[key].value == writes[writes.len() - 1].value);
}

/// Writes change no key but their own.
pub proof fn lemma_writes_leave_other_keys(
    store: StoreModel,
    writes: Seq<Write>,
    key: Seq<u8>,
)
    requires
        forall|i: int| 0 <= i < writes.len() ==> (#[trigger] writes[i]).key != key,
    ensures
        apply_writes(store, writes).contains_key(key) == store.contains_key(key),
        store.contains_key(key) ==> apply_writes(store, writes)[key] == store[key],
    decreases writes.len(),
{
    if writes.len() > 0 {
        let front = writes.drop_last();
        assert forall|i: int| 0 <= i < front.len() implies (#[trigger] front[i]).key != key by {
            assert(front[i] == writes[i]);
        }
        lemma_writes_leave_other_keys(store, front, key);
        assert(writes[writes.len() - 1].key != key);
    }
}

} // verus!
