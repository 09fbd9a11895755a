//! The Percolator table, storage server and timestamp oracle.
use talent_plan::percolator::oracle::{TimestampOracle, TimestampRequest};
use talent_plan::percolator::storage::{
    CommitRequest, GetRequest, MemoryStorage, PrewriteRequest, TTL,
};
use talent_plan::percolator::table::{Column, KvTable, Value};

fn bytes(s: &str) -> Vec<u8> {
    s.as_bytes().to_vec()
}

fn vector(v: Option<(&(Vec<u8>, u64), &Value)>) -> Option<(u64, Vec<u8>)> {
    match v {
        Some((k, Value::Vector(b))) => Some((k.1, b.clone())),
        _ => None,
    }
}

#[test]
fn table_read_gives_newest_in_range() {
    let mut t = KvTable::new();
    t.write(bytes("k"), Column::Data, 5, Value::Vector(bytes("five")));
    t.write(bytes("k"), Column::Data, 9, Value::Vector(bytes("nine")));
    t.write(bytes("other"), Column::Data, 7, Value::Vector(bytes("x")));
    assert_eq!(vector(t.read(bytes("k"), Column::Data, None, None)), Some((9, bytes("nine"))));
    assert_eq!(vector(t.read(bytes("k"), Column::Data, None, Some(8))), Some((5, bytes("five"))));
    assert_eq!(vector(t.read(bytes("k"), Column::Data, Some(6), Some(8))), None);
    assert_eq!(vector(t.read(bytes("k"), Column::Data, Some(9), Some(9))), Some((9, bytes("nine"))));
    assert!(t.read(bytes("k"), Column::Lock, None, None).is_none());
    assert!(t.read(bytes("k"), Column::Write, None, None).is_none());
}

#[test]
fn table_write_replaces_and_erase_removes() {
    let mut t = KvTable::new();
    t.write(bytes("k"), Column::Write, 3, Value::Timestamp(1));
    t.write(bytes("k"), Column::Write, 3, Value::Timestamp(2));
    match t.read(bytes("k"), Column::Write, None, None) {
        Some((k, Value::Timestamp(s))) => {
            assert_eq!(k.1, 3);
            assert_eq!(*s, 2);
        }
        _ => panic!("commit record missing"),
    }
    t.erase(bytes("k"), Column::Write, 4);
    assert!(t.read(bytes("k"), Column::Write, None, None).is_some());
    t.erase(bytes("k"), Column::Write, 3);
    assert!(t.read(bytes("k"), Column::Write, None, None).is_none());
}

#[test]
fn table_find_commit() {
    let mut t = KvTable::new();
    t.write(bytes("p"), Column::Write, 20, Value::Timestamp(10));
    t.write(bytes("p"), Column::Write, 40, Value::Timestamp(30));
    assert_eq!(t.find_commit(&bytes("p"), 10), Some(20));
    assert_eq!(t.find_commit(&bytes("p"), 30), Some(40));
    assert_eq!(t.find_commit(&bytes("p"), 20), None);
    assert_eq!(t.find_commit(&bytes("q"), 10), None);
}

fn prewrite(s: &mut MemoryStorage, start: u64, primary: &str, key: &str, value: &str) -> bool {
    s.prewrite(PrewriteRequest {
        start_ts: start,
        primary: bytes(primary),
        key: bytes(key),
        value: bytes(value),
    })
    .ok
}

fn commit(s: &mut MemoryStorage, is_primary: bool, start: u64, commit_ts: u64, key: &str) -> bool {
    s.commit(CommitRequest { is_primary, start_ts: start, commit_ts, key: bytes(key) }).ok
}

fn get(s: &mut MemoryStorage, start: u64, key: &str, now: u64) -> Option<Vec<u8>> {
    s.get(GetRequest { start_ts: start, key: bytes(key) }, now).map(|r| r.value)
}

#[test]
fn committed_write_is_visible_to_later_reads_only() {
    let mut s = MemoryStorage::new();
    assert!(prewrite(&mut s, 10, "a", "a", "1"));
    assert!(commit(&mut s, true, 10, 20, "a"));
    assert_eq!(get(&mut s, 25, "a", 25), Some(bytes("1")));
    assert_eq!(get(&mut s, 20, "a", 25), Some(bytes("1")));
    assert_eq!(get(&mut s, 15, "a", 25), Some(Vec::new()));
    assert_eq!(get(&mut s, 25, "missing", 25), Some(Vec::new()));
}

#[test]
fn prewrite_conflicts() {
    let mut s = MemoryStorage::new();
    assert!(prewrite(&mut s, 10, "a", "a", "1"));
    // a lock is there
    assert!(!prewrite(&mut s, 11, "b", "a", "2"));
    assert!(commit(&mut s, true, 10, 20, "a"));
    // a write committed after the start
    assert!(!prewrite(&mut s, 15, "a", "a", "3"));
    // a write committed before the start is no conflict
    assert!(prewrite(&mut s, 21, "a", "a", "4"));
}

#[test]
fn commit_of_rolled_back_primary_is_refused() {
    let mut s = MemoryStorage::new();
    assert!(!commit(&mut s, true, 10, 20, "a"));
    // a secondary commits without its lock
    assert!(commit(&mut s, false, 10, 20, "b"));
}

#[test]
fn read_blocked_by_live_lock() {
    let mut s = MemoryStorage::new();
    assert!(prewrite(&mut s, 10, "a", "a", "1"));
    assert_eq!(get(&mut s, 15, "a", 15), None);
    // the lock is still there
    assert!(!prewrite(&mut s, 16, "a", "a", "2"));
    // a read before the lock is not blocked
    assert_eq!(get(&mut s, 5, "a", 15), Some(Vec::new()));
}

#[test]
fn expired_lock_of_uncommitted_transaction_is_rolled_back() {
    let mut s = MemoryStorage::new();
    assert!(prewrite(&mut s, 10, "p", "p", "1"));
    assert!(prewrite(&mut s, 10, "p", "s", "2"));
    let now = 10 + TTL;
    assert_eq!(get(&mut s, 12, "s", now), None);
    assert_eq!(get(&mut s, 12, "s", now), Some(Vec::new()));
    // the primary was rolled back too, so its commit fails
    assert!(!commit(&mut s, true, 10, 30, "p"));
    assert_eq!(get(&mut s, 40, "p", now), Some(Vec::new()));
}

#[test]
fn expired_lock_of_committed_transaction_is_rolled_forward() {
    let mut s = MemoryStorage::new();
    assert!(prewrite(&mut s, 10, "p", "p", "1"));
    assert!(prewrite(&mut s, 10, "p", "s", "2"));
    assert!(commit(&mut s, true, 10, 20, "p"));
    let now = 10 + TTL;
    // the secondary's lock blocks, then is rolled forward
    assert_eq!(get(&mut s, 25, "s", now), None);
    assert_eq!(get(&mut s, 25, "s", now), Some(bytes("2")));
    assert_eq!(get(&mut s, 25, "p", now), Some(bytes("1")));
}

#[test]
fn live_lock_is_left_alone() {
    let mut s = MemoryStorage::new();
    assert!(prewrite(&mut s, 10, "p", "s", "2"));
    s.back_off_maybe_clean_up_lock(12, bytes("s"), 10 + TTL - 1);
    assert_eq!(get(&mut s, 12, "s", 10 + TTL - 1), None);
    s.back_off_maybe_clean_up_lock(12, bytes("s"), 10 + TTL);
    assert_eq!(get(&mut s, 12, "s", 10 + TTL), Some(Vec::new()));
}

#[test]
fn timestamps_strictly_increase() {
    let mut o = TimestampOracle::new();
    let a = o.get_timestamp(TimestampRequest {}, 100).unwrap().timestamp;
    let b = o.get_timestamp(TimestampRequest {}, 100).unwrap().timestamp;
    let c = o.get_timestamp(TimestampRequest {}, 50).unwrap().timestamp;
    let d = o.get_timestamp(TimestampRequest {}, 1000).unwrap().timestamp;
    assert_eq!((a, b, c, d), (100, 101, 102, 1000));
}

#[test]
fn timestamps_run_out_at_the_largest_number() {
    let mut o = TimestampOracle::new();
    assert_eq!(o.get_timestamp(TimestampRequest {}, u64::MAX).unwrap().timestamp, u64::MAX);
    assert!(o.get_timestamp(TimestampRequest {}, u64::MAX).is_none());
}

use talent_plan::percolator::client::{committed, Client};

#[test]
fn client_buffers_writes_and_plans_both_phases() {
    let mut c = Client::new();
    c.begin(42);
    let g = c.get(bytes("k"));
    assert_eq!((g.start_ts, g.key.clone()), (42, bytes("k")));
    c.set(bytes("a"), bytes("1"));
    c.set(bytes("b"), bytes("2"));
    c.set(bytes("a"), bytes("3"));
    let pre = c.prewrites();
    assert_eq!(pre.len(), 2);
    assert_eq!((pre[0].key.clone(), pre[0].value.clone(), pre[0].primary.clone()), (bytes("a"), bytes("3"), bytes("a")));
    assert_eq!((pre[1].key.clone(), pre[1].value.clone(), pre[1].primary.clone()), (bytes("b"), bytes("2"), bytes("a")));
    assert!(pre.iter().all(|p| p.start_ts == 42));
    let com = c.commits(50);
    assert_eq!(com.len(), 2);
    assert!(com[0].is_primary && !com[1].is_primary);
    assert_eq!((com[1].key.clone(), com[1].start_ts, com[1].commit_ts), (bytes("b"), 42, 50));
    c.begin(60);
    assert!(c.prewrites().is_empty());
}

#[test]
fn transaction_through_storage() {
    let mut s = MemoryStorage::new();
    let mut o = TimestampOracle::new();
    let mut c = Client::new();
    c.begin(o.get_timestamp(TimestampRequest {}, 10).unwrap().timestamp);
    c.set(bytes("x"), bytes("1"));
    c.set(bytes("y"), bytes("2"));
    let oks: Vec<bool> = c.prewrites().into_iter().map(|p| s.prewrite(p).ok).collect();
    let commit_ts = o.get_timestamp(TimestampRequest {}, 10).unwrap().timestamp;
    let mut reqs = c.commits(commit_ts).into_iter();
    let primary_ok = s.commit(reqs.next().unwrap()).ok;
    assert!(committed(&oks, primary_ok));
    // the secondary is not committed yet: a reader rolls it forward once
    // the lock has expired
    let read_ts = o.get_timestamp(TimestampRequest {}, 10).unwrap().timestamp;
    assert_eq!(get(&mut s, read_ts, "x", read_ts), Some(bytes("1")));
    assert_eq!(get(&mut s, read_ts, "y", read_ts + TTL), None);
    assert_eq!(get(&mut s, read_ts, "y", read_ts + TTL), Some(bytes("2")));
}

#[test]
fn commit_outcome() {
    assert!(committed(&[], false));
    assert!(committed(&[true, true], true));
    assert!(!committed(&[true, false], true));
    assert!(!committed(&[true, true], false));
}

#[test]
fn table_clone_is_independent() {
    let mut t = KvTable::default();
    t.write(bytes("k"), Column::Lock, 1, Value::Vector(bytes("p")));
    let mut c = t.clone();
    c.erase(bytes("k"), Column::Lock, 1);
    assert!(t.read(bytes("k"), Column::Lock, None, None).is_some());
    assert!(c.read(bytes("k"), Column::Lock, None, None).is_none());
}
