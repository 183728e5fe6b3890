//! Concurrent access through the same synchronisation the server uses:
//! one shared store behind a mutex, many tasks writing and reading one
//! key. Every read must observe one of the written values whole — never
//! a mixture of two writes.

use std::sync::Arc;

use respkv::store::Db;

#[test]
fn concurrent_writers_never_tear() {
    let runtime = tokio::runtime::Builder::new_multi_thread()
        .worker_threads(4)
        .build()
        .unwrap();
    runtime.block_on(async {
        let db = Arc::new(tokio::sync::Mutex::new(Db::new()));
        let n: usize = 16;
        let values: Vec<Vec<u8>> = (0..n)
            .map(|i| format!("value-{}-{}", i, "x".repeat(64)).into_bytes())
            .collect();
        let mut handles = Vec::new();
        for value in values.clone() {
            let db = Arc::clone(&db);
            handles.push(tokio::spawn(async move {
                {
                    let mut guard = db.lock().await;
                    guard.store(b"same_key".to_vec(), value, None);
                }
                let observed = {
                    let mut guard = db.lock().await;
                    guard.fetch(&b"same_key".to_vec(), 0)
                };
                observed.expect("the key was just written")
            }));
        }
        for handle in handles {
            let observed = handle.await.unwrap();
            assert!(
                values.iter().any(|v| *v == observed),
                "read a value no task wrote: {:?}",
                observed
            );
        }
    });
}
