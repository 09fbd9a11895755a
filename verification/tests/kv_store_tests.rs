//! The in-memory key/value store and the persister.
use std::sync::{Arc, Mutex};

use talent_plan::kvs::kv::KvStore;
use talent_plan::raft::persister::{Persister, SimplePersister};

// Should get previously stored value.
#[test]
fn tests_get_stored_value() {
    let mut store = KvStore::new();

    store.set("key1".to_owned(), "value1".to_owned());
    store.set("key2".to_owned(), "value2".to_owned());

    assert_eq!(store.get("key1".to_owned()), Some("value1".to_owned()));
    assert_eq!(store.get("key2".to_owned()), Some("value2".to_owned()));
}

// Should overwrite existent value.
#[test]
fn tests_overwrite_value() {
    let mut store = KvStore::new();

    store.set("key1".to_owned(), "value1".to_owned());
    assert_eq!(store.get("key1".to_owned()), Some("value1".to_owned()));

    store.set("key1".to_owned(), "value2".to_owned());
    assert_eq!(store.get("key1".to_owned()), Some("value2".to_owned()));
}

// Should get `None` when getting a non-existent key.
#[test]
fn tests_get_non_existent_value() {
    let mut store = KvStore::new();

    store.set("key1".to_owned(), "value1".to_owned());
    assert_eq!(store.get("key2".to_owned()), None);
}

#[test]
fn tests_remove_key() {
    let mut store = KvStore::new();

    store.set("key1".to_owned(), "value1".to_owned());
    store.remove("key1".to_owned());
    assert_eq!(store.get("key1".to_owned()), None);
}

#[test]
fn remove_missing_key_changes_nothing() {
    let mut store = KvStore::new();
    store.set("a".to_owned(), "1".to_owned());
    store.remove("b".to_owned());
    assert_eq!(store.get("a".to_owned()), Some("1".to_owned()));
    assert_eq!(store.get("b".to_owned()), None);
}

// The persister is usable as a trait object, and one shared between owners
// shows each what the other saved.
#[test]
fn test_object_safety() {
    let mut sp = SimplePersister::new();
    sp.save_raft_state(vec![111]);
    let mut obj: Box<dyn Persister + Sync + Send> = Box::new(sp);
    assert_eq!(obj.raft_state(), vec![111]);
    obj.save_state_and_snapshot(vec![222], vec![123]);
    assert_eq!(obj.raft_state(), vec![222]);
    assert_eq!(obj.snapshot(), vec![123]);

    let cloneable_obj: Arc<Mutex<Box<dyn Persister + Sync + Send>>> = Arc::new(Mutex::new(obj));
    assert_eq!(cloneable_obj.lock().unwrap().raft_state(), vec![222]);
    assert_eq!(cloneable_obj.lock().unwrap().snapshot(), vec![123]);

    let cloneable_obj_ = cloneable_obj.clone();
    cloneable_obj.lock().unwrap().save_raft_state(vec![233]);
    assert_eq!(cloneable_obj_.lock().unwrap().raft_state(), vec![233]);
    assert_eq!(cloneable_obj_.lock().unwrap().snapshot(), vec![123]);

    let sp = SimplePersister::new();
    let obj: Box<dyn Persister + Sync + Send> = Box::new(sp);
    let mut box_obj: Box<dyn Persister> = Box::new(obj);
    box_obj.save_raft_state(vec![7]);
    assert_eq!(box_obj.raft_state(), vec![7]);
}

#[test]
fn persister_save_raft_state_keeps_snapshot() {
    let mut p = SimplePersister::new();
    assert_eq!(p.raft_state(), Vec::<u8>::new());
    assert_eq!(p.snapshot(), Vec::<u8>::new());
    p.save_state_and_snapshot(vec![1, 2], vec![3]);
    p.save_raft_state(vec![9]);
    assert_eq!(p.raft_state(), vec![9]);
    assert_eq!(p.snapshot(), vec![3]);
}
