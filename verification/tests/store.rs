//! Store semantics: insertion overwrites, reads leave live entries
//! alone, expiry is enforced only at read time, invalidation removes.

use respkv::store::{Db, RespEntry};

#[test]
fn fetch_returns_what_store_put() {
    let mut db = Db::new();
    db.store(b"k".to_vec(), b"hello".to_vec(), None);
    assert_eq!(db.fetch(&b"k".to_vec(), 0), Some(b"hello".to_vec()));
    // A read leaves an unexpired entry in place.
    assert_eq!(db.fetch(&b"k".to_vec(), 1_000_000), Some(b"hello".to_vec()));
}

#[test]
fn missing_key_is_absent() {
    let mut db = Db::new();
    assert_eq!(db.fetch(&b"nope".to_vec(), 0), None);
}

#[test]
fn store_overwrites_existing_entry() {
    let mut db = Db::new();
    db.store(b"k".to_vec(), b"one".to_vec(), None);
    db.store(b"k".to_vec(), b"two".to_vec(), None);
    assert_eq!(db.fetch(&b"k".to_vec(), 0), Some(b"two".to_vec()));
}

#[test]
fn expired_entry_is_removed_on_read() {
    let mut db = Db::new();
    db.store(b"k".to_vec(), b"v".to_vec(), Some(10));
    assert_eq!(db.fetch(&b"k".to_vec(), 9), Some(b"v".to_vec()));
    // At the expiry timestamp the entry already counts as gone.
    assert_eq!(db.fetch(&b"k".to_vec(), 10), None);
    // The read removed it: it is gone at every later (and earlier) time.
    assert_eq!(db.fetch(&b"k".to_vec(), 0), None);
}

#[test]
fn overwrite_clears_old_expiry() {
    let mut db = Db::new();
    db.store(b"k".to_vec(), b"v".to_vec(), Some(10));
    db.store(b"k".to_vec(), b"w".to_vec(), None);
    assert_eq!(db.fetch(&b"k".to_vec(), 50), Some(b"w".to_vec()));
}

#[test]
fn invalidate_removes_unconditionally() {
    let mut db = Db::new();
    db.store(b"k".to_vec(), b"v".to_vec(), None);
    db.invalidate(&b"k".to_vec());
    assert_eq!(db.fetch(&b"k".to_vec(), 0), None);
    // Invalidating an absent key is a no-op.
    db.invalidate(&b"k".to_vec());
    assert_eq!(db.fetch(&b"k".to_vec(), 0), None);
}

#[test]
fn keys_are_independent() {
    let mut db = Db::new();
    db.store(b"a".to_vec(), b"1".to_vec(), None);
    db.store(b"b".to_vec(), b"2".to_vec(), Some(5));
    assert_eq!(db.fetch(&b"b".to_vec(), 10), None);
    assert_eq!(db.fetch(&b"a".to_vec(), 10), Some(b"1".to_vec()));
}

#[test]
fn entry_construction_keeps_fields() {
    let e = RespEntry::new(b"v".to_vec(), Some(3));
    assert_eq!(e.value, b"v".to_vec());
    assert_eq!(e.expiry, Some(3));
}
