use resp_kv::command_repository::{expires_at, CommandRepository, TTL};
use resp_kv::query_repository::QueryRepository;
use resp_kv::resp_command::RespTtl;
use resp_kv::storage::{Storage, StorageEntry, StorageKey};

fn key(bytes: &[u8]) -> StorageKey {
    StorageKey::from(bytes.to_vec())
}

#[test]
fn a_new_store_is_empty() {
    let storage = Storage::new();
    assert_eq!(storage.get(key(b"k")), None);
    let storage = Storage::default();
    assert_eq!(storage.get(key(b"")), None);
}

#[test]
fn insert_then_get() {
    let mut storage = Storage::new();
    storage.insert(key(b"a"), StorageEntry::new(b"1".to_vec(), None));
    storage.insert(key(b"b"), StorageEntry::new(b"2".to_vec(), Some(77)));
    assert_eq!(storage.get(key(b"a")), Some(StorageEntry { value: b"1".to_vec(), expires_at: None }));
    assert_eq!(
        storage.get(key(b"b")),
        Some(StorageEntry { value: b"2".to_vec(), expires_at: Some(77) })
    );
    assert_eq!(storage.get(key(b"c")), None);
}

#[test]
fn insert_replaces_value_and_expiry() {
    let mut storage = Storage::new();
    storage.insert(key(b"a"), StorageEntry::new(b"1".to_vec(), Some(5)));
    storage.insert(key(b"b"), StorageEntry::new(b"2".to_vec(), None));
    storage.insert(key(b"a"), StorageEntry::new(b"3".to_vec(), None));
    assert_eq!(storage.get(key(b"a")), Some(StorageEntry { value: b"3".to_vec(), expires_at: None }));
    assert_eq!(storage.get(key(b"b")), Some(StorageEntry { value: b"2".to_vec(), expires_at: None }));
}

#[test]
fn keys_are_compared_byte_by_byte() {
    let mut storage = Storage::new();
    storage.insert(key(b"ab"), StorageEntry::new(b"1".to_vec(), None));
    assert_eq!(storage.get(key(b"a")), None);
    assert_eq!(storage.get(key(b"abc")), None);
    assert_eq!(storage.get(key(b"aB")), None);
    assert!(storage.get(key(b"ab")).is_some());
    storage.insert(key(b""), StorageEntry::new(Vec::new(), None));
    assert_eq!(storage.get(key(b"")), Some(StorageEntry { value: Vec::new(), expires_at: None }));
}

#[test]
fn keys_convert_both_ways() {
    let k = StorageKey::from(vec![1u8, 2, 3]);
    assert_eq!(k, StorageKey(vec![1, 2, 3]));
    let bytes: Vec<u8> = k.into();
    assert_eq!(bytes, vec![1, 2, 3]);
}

#[test]
fn an_entry_expires_at_its_instant() {
    let entry = StorageEntry::new(b"v".to_vec(), Some(100));
    assert!(!entry.is_expired(99));
    assert!(entry.is_expired(100));
    assert!(entry.is_expired(101));
    let entry = StorageEntry::new(b"v".to_vec(), None);
    assert!(!entry.is_expired(u64::MAX));
}

#[test]
fn ttl_in_milliseconds() {
    assert_eq!(TTL::from_milliseconds(1500).to_milliseconds(), Ok(1500));
    assert_eq!(TTL::from_seconds(3).to_milliseconds(), Ok(3000));
    assert_eq!(TTL::from_seconds(0).to_milliseconds(), Ok(0));
    assert_eq!(
        TTL::Indefinite.to_milliseconds(),
        Err("Indefinite TTL cannot be converted to milliseconds".to_string())
    );
    assert_eq!(
        TTL::Seconds(u64::MAX / 1000).to_milliseconds(),
        Ok(18_446_744_073_709_551_000)
    );
    assert_eq!(
        TTL::Seconds(u64::MAX / 1000 + 1).to_milliseconds(),
        Err("TTL does not fit in 64 bits of milliseconds".to_string())
    );
    assert_eq!(TTL::from_seconds(2), TTL::Seconds(2));
    assert_eq!(TTL::from_milliseconds(2), TTL::Milliseconds(2));
}

#[test]
fn ttl_of_a_command() {
    assert_eq!(TTL::from(&RespTtl::Seconds(4)), TTL::Seconds(4));
    assert_eq!(TTL::from(&RespTtl::Milliseconds(4)), TTL::Milliseconds(4));
}

#[test]
fn expiry_is_the_instant_of_writing_plus_the_ttl() {
    assert_eq!(expires_at(TTL::Milliseconds(250), 1_000), Some(1_250));
    assert_eq!(expires_at(TTL::Seconds(2), 1_000), Some(3_000));
    assert_eq!(expires_at(TTL::Milliseconds(0), 1_000), Some(1_000));
    assert_eq!(expires_at(TTL::Indefinite, 1_000), None);
    assert_eq!(expires_at(TTL::Milliseconds(u64::MAX), 0), Some(u64::MAX));
    assert_eq!(expires_at(TTL::Milliseconds(u64::MAX), 1), None);
    assert_eq!(expires_at(TTL::Seconds(u64::MAX), 0), None);
}

#[test]
fn get_right_after_set() {
    let mut storage = Storage::new();
    CommandRepository::new(&mut storage).set_at(b"key".to_vec(), b"value".to_vec(), TTL::Indefinite, 10);
    let query = QueryRepository::new(&storage);
    assert_eq!(query.get_at(b"key".to_vec(), 10), Some(b"value".to_vec()));
    assert_eq!(query.get_at(b"key".to_vec(), u64::MAX), Some(b"value".to_vec()));
}

#[test]
fn a_later_set_overwrites() {
    let mut storage = Storage::new();
    {
        let mut repository = CommandRepository::new(&mut storage);
        repository.set_at(b"key".to_vec(), b"old".to_vec(), TTL::Milliseconds(1), 10);
        repository.set_at(b"key".to_vec(), b"new".to_vec(), TTL::Indefinite, 20);
    }
    assert_eq!(
        storage.get(StorageKey::from(b"key".to_vec())),
        Some(StorageEntry { value: b"new".to_vec(), expires_at: None })
    );
    assert_eq!(QueryRepository::new(&storage).get_at(b"key".to_vec(), 1_000), Some(b"new".to_vec()));
}

#[test]
fn a_key_never_set_is_absent() {
    let mut storage = Storage::new();
    assert_eq!(QueryRepository::new(&storage).get_at(b"x".to_vec(), 0), None);
    CommandRepository::new(&mut storage).set_at(b"y".to_vec(), b"1".to_vec(), TTL::Indefinite, 0);
    assert_eq!(QueryRepository::new(&storage).get_at(b"x".to_vec(), 0), None);
}

#[test]
fn an_expired_key_is_absent() {
    let mut storage = Storage::new();
    CommandRepository::new(&mut storage).set_at(b"k".to_vec(), b"v".to_vec(), TTL::Milliseconds(50), 1_000);
    let query = QueryRepository::new(&storage);
    assert_eq!(query.get_at(b"k".to_vec(), 1_049), Some(b"v".to_vec()));
    assert_eq!(query.get_at(b"k".to_vec(), 1_050), None);
    assert_eq!(query.get_at(b"k".to_vec(), 5_000), None);
}

#[test]
fn a_key_stored_with_a_past_expiry_is_absent() {
    let mut storage = Storage::new();
    storage.insert(StorageKey::from(b"k".to_vec()), StorageEntry::new(b"v".to_vec(), Some(5)));
    assert_eq!(QueryRepository::new(&storage).get_at(b"k".to_vec(), 6), None);
    assert_eq!(QueryRepository::new(&storage).get(b"k".to_vec()), None);
}

#[test]
fn the_expiry_is_fixed_when_written() {
    let mut storage = Storage::new();
    CommandRepository::new(&mut storage).set_at(b"k".to_vec(), b"v".to_vec(), TTL::Seconds(2), 500);
    assert_eq!(
        storage.get(StorageKey::from(b"k".to_vec())),
        Some(StorageEntry { value: b"v".to_vec(), expires_at: Some(2_500) })
    );
}

#[test]
fn an_expiry_beyond_the_clock_is_none() {
    let mut storage = Storage::new();
    CommandRepository::new(&mut storage).set_at(
        b"k".to_vec(),
        b"v".to_vec(),
        TTL::Seconds(u64::MAX),
        500,
    );
    assert_eq!(
        storage.get(StorageKey::from(b"k".to_vec())),
        Some(StorageEntry { value: b"v".to_vec(), expires_at: None })
    );
}

#[test]
fn set_and_get_by_the_wall_clock() {
    let mut storage = Storage::new();
    {
        let mut repository = CommandRepository::new(&mut storage);
        repository.set(b"gone".to_vec(), b"c".to_vec(), TTL::Milliseconds(0));
        repository.set(b"forever".to_vec(), b"a".to_vec(), TTL::Indefinite);
        repository.set(b"long".to_vec(), b"b".to_vec(), TTL::Seconds(3_600));
    }
    let query = QueryRepository::new(&storage);
    assert_eq!(query.get(b"forever".to_vec()), Some(b"a".to_vec()));
    assert_eq!(query.get(b"long".to_vec()), Some(b"b".to_vec()));
    assert_eq!(query.get(b"gone".to_vec()), None);
    assert_eq!(query.get(b"never".to_vec()), None);
    let long = storage.get(StorageKey::from(b"long".to_vec())).unwrap();
    let gone = storage.get(StorageKey::from(b"gone".to_vec())).unwrap();
    assert!(long.expires_at.unwrap() >= gone.expires_at.unwrap() + 3_600_000);
}

#[test]
fn writes_on_distinct_keys_all_persist_in_any_order() {
    let n = 50u8;
    let mut forward = Storage::new();
    let mut backward = Storage::new();
    {
        let mut repository = CommandRepository::new(&mut forward);
        for i in 0..n {
            repository.set_at(vec![b'k', i], vec![b'v', i], TTL::Indefinite, 0);
        }
    }
    {
        let mut repository = CommandRepository::new(&mut backward);
        for i in (0..n).rev() {
            repository.set_at(vec![b'k', i], vec![b'v', i], TTL::Indefinite, 0);
        }
    }
    for i in 0..n {
        assert_eq!(QueryRepository::new(&forward).get_at(vec![b'k', i], 0), Some(vec![b'v', i]));
        assert_eq!(QueryRepository::new(&backward).get_at(vec![b'k', i], 0), Some(vec![b'v', i]));
    }
}

#[test]
fn writes_on_one_key_leave_the_last_value() {
    let mut storage = Storage::new();
    {
        let mut repository = CommandRepository::new(&mut storage);
        for i in 0..50u8 {
            repository.set_at(b"k".to_vec(), vec![i; 100], TTL::Indefinite, 0);
        }
    }
    assert_eq!(QueryRepository::new(&storage).get_at(b"k".to_vec(), 0), Some(vec![49u8; 100]));
}
