use std::sync::Arc;

use resp_kv::command_repository::{CommandRepository, TTL};
use resp_kv::query_repository::QueryRepository;
use resp_kv::storage::Storage;
use tokio::runtime::Builder;
use tokio::sync::RwLock;

const WRITERS: u8 = 64;

#[test]
fn concurrent_writers_on_distinct_keys_all_persist() {
    let runtime = Builder::new_multi_thread().worker_threads(4).build().unwrap();
    let storage = Arc::new(RwLock::new(Storage::new()));
    runtime.block_on(async {
        let mut tasks = Vec::new();
        for i in 0..WRITERS {
            let storage = Arc::clone(&storage);
            tasks.push(tokio::spawn(async move {
                let mut guard = storage.write().await;
                CommandRepository::new(&mut guard).set(vec![b'k', i], vec![i; 64], TTL::Indefinite);
            }));
        }
        for task in tasks {
            task.await.unwrap();
        }
        let guard = storage.read().await;
        for i in 0..WRITERS {
            assert_eq!(QueryRepository::new(&guard).get(vec![b'k', i]), Some(vec![i; 64]));
        }
    });
}

#[test]
fn concurrent_writers_on_one_key_leave_one_whole_value() {
    let runtime = Builder::new_multi_thread().worker_threads(4).build().unwrap();
    let storage = Arc::new(RwLock::new(Storage::new()));
    runtime.block_on(async {
        let mut tasks = Vec::new();
        for i in 0..WRITERS {
            let storage = Arc::clone(&storage);
            tasks.push(tokio::spawn(async move {
                let mut guard = storage.write().await;
                CommandRepository::new(&mut guard).set(b"k".to_vec(), vec![i; 64], TTL::Indefinite);
            }));
        }
        for task in tasks {
            task.await.unwrap();
        }
        let guard = storage.read().await;
        let stored = QueryRepository::new(&guard).get(b"k".to_vec()).unwrap();
        assert_eq!(stored.len(), 64);
        assert!(stored[0] < WRITERS);
        assert_eq!(stored, vec![stored[0]; 64]);
    });
}

#[test]
fn readers_run_beside_writers() {
    let runtime = Builder::new_multi_thread().worker_threads(4).build().unwrap();
    let storage = Arc::new(RwLock::new(Storage::new()));
    runtime.block_on(async {
        let mut tasks = Vec::new();
        for i in 0..WRITERS {
            let writer = Arc::clone(&storage);
            tasks.push(tokio::spawn(async move {
                let mut guard = writer.write().await;
                CommandRepository::new(&mut guard).set(b"k".to_vec(), vec![i; 64], TTL::Indefinite);
            }));
            let reader = Arc::clone(&storage);
            tasks.push(tokio::spawn(async move {
                let guard = reader.read().await;
                if let Some(seen) = QueryRepository::new(&guard).get(b"k".to_vec()) {
                    assert_eq!(seen, vec![seen[0]; 64]);
                }
            }));
        }
        for task in tasks {
            task.await.unwrap();
        }
    });
}
