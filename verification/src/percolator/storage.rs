//! The storage server: snapshot reads, and the two phases of a commit.
//!
//! A transaction reads at its start timestamp. To commit, it first
//! prewrites every mutation (writing its data and a lock that names the
//! primary key), then commits the primary and afterwards the secondaries (a
//! commit record in the write column that points at the start timestamp,
//! and the lock removed). A reader that meets a lock backs off; once the lock
//! has outlived its time to live, the reader cleans it up, rolling the
//! transaction forward if its primary committed and back otherwise.
use vstd::prelude::*;
use vstd::slice::slice_to_vec;
use super::table::{
    commit_of, in_range, is_commit_record, latest, lemma_latest_some, Column, ColumnMap, KvTable,
    TableView, Value, ValueView,
};

verus! {

/// How long, in nanoseconds, a lock keeps readers waiting before they may
/// clean it up.
pub const TTL: u64 = 100000000;

/// Read `key` at timestamp `start_ts`.
#[derive(Clone, Debug)]
pub struct GetRequest {
    pub start_ts: u64,
    pub key: Vec<u8>,
}

/// The value read; empty where the key has none.
#[derive(Clone, Debug)]
pub struct GetResponse {
    pub value: Vec<u8>,
}

/// First phase for one mutation of the transaction started at `start_ts`.
#[derive(Clone, Debug)]
pub struct PrewriteRequest {
    pub start_ts: u64,
    pub primary: Vec<u8>,
    pub key: Vec<u8>,
    pub value: Vec<u8>,
}

/// Whether the prewrite took its lock.
#[derive(Clone, Copy, Debug)]
pub struct PrewriteResponse {
    pub ok: bool,
}

/// Second phase for one key of the transaction started at `start_ts`.
#[derive(Clone, Debug)]
pub struct CommitRequest {
    pub is_primary: bool,
    pub start_ts: u64,
    pub commit_ts: u64,
    pub key: Vec<u8>,
}

/// Whether the key was committed.
#[derive(Clone, Copy, Debug)]
pub struct CommitResponse {
    pub ok: bool,
}

/// A lock taken at `lock_ts` has outlived its time to live at time `now`.
pub open spec fn expired(lock_ts: u64, now: u64) -> bool {
    lock_ts <= now && now - lock_ts >= TTL
}

/// The primary key that a lock on `key` names.
pub open spec fn lock_primary(v: ValueView, key: Seq<u8>) -> Seq<u8> {
    match v {
        ValueView::Vector(p) => p,
        ValueView::Timestamp(_) => key,
    }
}

/// The table with the data and the lock that a transaction started at `ts`
/// left on `key` removed.
pub open spec fn roll_back(t: TableView, key: Seq<u8>, ts: u64) -> TableView {
    TableView { data: t.data.remove((key, ts)), lock: t.lock.remove((key, ts)), ..t }
}

/// The table with the transaction started at `start` committed on `key` at
/// `commit`: a commit record that points at `start`, and the lock removed.
pub open spec fn roll_forward(t: TableView, key: Seq<u8>, start: u64, commit: u64) -> TableView {
    TableView {
        write: t.write.insert((key, commit), ValueView::Timestamp(start)),
        lock: t.lock.remove((key, start)),
        ..t
    }
}

/// The table after a reader at `start_ts` that met a lock on `key` has
/// looked at it at time `now`: an expired lock is resolved through its
/// primary, a live one is left alone.
pub open spec fn cleaned_up(t: TableView, start_ts: u64, key: Seq<u8>, now: u64) -> TableView {
    match latest(t.lock, key, None, Some(start_ts)) {
        None => t,
        Some(lock_ts) => if !expired(lock_ts, now) {
            t
        } else {
            let primary = lock_primary(t.lock[(key, lock_ts)], key);
            if t.lock.contains_key((primary, lock_ts)) {
                roll_back(roll_back(t, primary, lock_ts), key, lock_ts)
            } else {
                match commit_of(t.write, primary, lock_ts) {
                    Some(c) => roll_forward(t, key, lock_ts, c),
                    None => roll_back(t, key, lock_ts),
                }
            }
        },
    }
}

/// What a snapshot read of `key` at `ts` gives: the data written by the
/// newest transaction that committed at or before `ts`, or nothing.
pub open spec fn snapshot_value(t: TableView, key: Seq<u8>, ts: u64) -> Seq<u8> {
    match latest(t.write, key, None, Some(ts)) {
        None => Seq::empty(),
        Some(c) => match t.write[(key, c)] {
            ValueView::Timestamp(start) => if t.data.contains_key((key, start)) {
                match t.data[(key, start)] {
                    ValueView::Vector(v) => v,
                    ValueView::Timestamp(_) => Seq::empty(),
                }
            } else {
                Seq::empty()
            },
            ValueView::Vector(_) => Seq::empty(),
        },
    }
}

/// Some lock on `key` is at most `start_ts`.
pub open spec fn locked_before(t: TableView, key: Seq<u8>, start_ts: u64) -> bool {
    exists|l: u64| l <= start_ts && t.lock.contains_key((key, l))
}

/// What a read of `key` at `start_ts` at time `now` does: with a lock in the
/// way it cleans up and reads nothing; otherwise it reads the snapshot.
pub open spec fn get_outcome(t: TableView, start_ts: u64, key: Seq<u8>, now: u64) -> (
    TableView,
    Option<Seq<u8>>,
) {
    if locked_before(t, key, start_ts) {
        (cleaned_up(t, start_ts, key, now), None)
    } else {
        (t, Some(snapshot_value(t, key, start_ts)))
    }
}

/// A prewrite at `start_ts` on `key` meets a write committed at or after
/// `start_ts`, or a lock.
pub open spec fn prewrite_conflict(t: TableView, start_ts: u64, key: Seq<u8>) -> bool {
    ||| exists|c: u64| start_ts <= c && t.write.contains_key((key, c))
    ||| exists|l: u64| t.lock.contains_key((key, l))
}

/// The table after a prewrite: the data, and a lock that names the primary.
pub open spec fn prewritten(
    t: TableView,
    start_ts: u64,
    primary: Seq<u8>,
    key: Seq<u8>,
    value: Seq<u8>,
) -> TableView {
    TableView {
        data: t.data.insert((key, start_ts), ValueView::Vector(value)),
        lock: t.lock.insert((key, start_ts), ValueView::Vector(primary)),
        ..t
    }
}

/// A commit of the primary finds its lock gone: the transaction was rolled
/// back.
pub open spec fn commit_refused(t: TableView, is_primary: bool, start_ts: u64, key: Seq<u8>) -> bool {
    is_primary && !t.lock.contains_key((key, start_ts))
}

fn copy_bytes(v: &Vec<u8>) -> (c: Vec<u8>)
    ensures
        c@ == v@,
{
    slice_to_vec(v.as_slice())
}

/// The storage server: the table that the transactions share.
pub struct MemoryStorage {
    data: KvTable,
}

impl View for MemoryStorage {
    type V = TableView;

    closed spec fn view(&self) -> TableView {
        self.data@
    }
}

impl MemoryStorage {
    /// A server with an empty table.
    pub fn new() -> (s: MemoryStorage)
        ensures
            s@.write == ColumnMap::empty(),
            s@.data == ColumnMap::empty(),
            s@.lock == ColumnMap::empty(),
    {
        MemoryStorage { data: KvTable::new() }
    }

    /// The table that this server holds.
    pub fn table(&self) -> (t: &KvTable)
        ensures
            t@ == self@,
    {
        &self.data
    }

    /// Removes the data and the lock that the transaction started at `ts`
    /// left on `key`.
    fn roll_back(&mut self, key: &Vec<u8>, ts: u64)
        ensures
            final(self)@ == roll_back(old(self)@, key@, ts),
    {
        self.data.erase(copy_bytes(key), Column::Data, ts);
        self.data.erase(copy_bytes(key), Column::Lock, ts);
    }

    /// Reads `req.key` at `req.start_ts`, at time `now`. A lock at or
    /// before the start timestamp stands in the way: the read then cleans
    /// it up if it has expired and answers `None`, and the caller backs off
    /// and asks again. Otherwise the answer is the snapshot value.
    pub fn get(&mut self, req: GetRequest, now: u64) -> (r: Option<GetResponse>)
        ensures
            final(self)@ == get_outcome(old(self)@, req.start_ts, req.key@, now).0,
            match r {
                None => get_outcome(old(self)@, req.start_ts, req.key@, now).1 is None,
                Some(resp) => get_outcome(old(self)@, req.start_ts, req.key@, now).1 == Some(resp.value@),
            },
    {
        let ghost t = self@;
        let locked = self.data.read(copy_bytes(&req.key), Column::Lock, None, Some(req.start_ts)).is_some();
        if locked {
            proof {
                let l = latest(t.lock, req.key@, None, Some(req.start_ts))->0;
                lemma_latest_some(t.lock, req.key@, None, Some(req.start_ts));
                assert(in_range(l, None, Some(req.start_ts)));
                assert(locked_before(t, req.key@, req.start_ts));
            }
            self.back_off_maybe_clean_up_lock(req.start_ts, req.key, now);
            return None;
        }
        proof {
            assert forall|l: u64| l <= req.start_ts implies !t.lock.contains_key((req.key@, l)) by {
                assert(in_range(l, None, Some(req.start_ts)));
            }
        }
        let value = self.snapshot_read(&req.key, req.start_ts);
        Some(GetResponse { value })
    }

    /// The snapshot value of `key` at `ts`.
    fn snapshot_read(&self, key: &Vec<u8>, ts: u64) -> (v: Vec<u8>)
        ensures
            v@ == snapshot_value(self@, key@, ts),
    {
        let ghost t = self@;
        let start = match self.data.read(copy_bytes(key), Column::Write, None, Some(ts)) {
            None => {
                return Vec::new();
            },
            Some((_, Value::Timestamp(s))) => *s,
            Some((_, Value::Vector(_))) => {
                return Vec::new();
            },
        };
        match self.data.read(copy_bytes(key), Column::Data, Some(start), Some(start)) {
            Some((_, Value::Vector(v))) => {
                proof {
                    lemma_latest_some(t.data, key@, Some(start), Some(start));
                }
                copy_bytes(v)
            },
            Some((_, Value::Timestamp(_))) => {
                proof {
                    lemma_latest_some(t.data, key@, Some(start), Some(start));
                }
                Vec::new()
            },
            None => {
                proof {
                    assert(in_range(start, Some(start), Some(start)));
                }
                Vec::new()
            },
        }
    }

    /// Looks at the lock that stands in the way of a read of `key` at
    /// `start_ts`, at time `now`. A lock that has outlived its time to live
    /// is resolved through its primary: if the primary is still locked the
    /// transaction is rolled back on both keys; if the primary committed,
    /// `key` is committed at the same timestamp; otherwise `key` is rolled
    /// back. A live lock is left alone, and the reader backs off.
    pub fn back_off_maybe_clean_up_lock(&mut self, start_ts: u64, key: Vec<u8>, now: u64)
        ensures
            final(self)@ == cleaned_up(old(self)@, start_ts, key@, now),
    {
        let ghost t = self@;
        let found = match self.data.read(copy_bytes(&key), Column::Lock, None, Some(start_ts)) {
            None => None,
            Some((k, v)) => Some((k.1, v.clone())),
        };
        let (lock_ts, lock_value) = match found {
            None => {
                return;
            },
            Some(x) => x,
        };
        if !(lock_ts <= now && now - lock_ts >= TTL) {
            return;
        }
        let primary = match lock_value {
            Value::Vector(p) => p,
            Value::Timestamp(_) => copy_bytes(&key),
        };
        let primary_locked = self.data.read(copy_bytes(&primary), Column::Lock, Some(lock_ts), Some(lock_ts)).is_some();
        if primary_locked {
            proof {
                lemma_latest_some(t.lock, primary@, Some(lock_ts), Some(lock_ts));
            }
            self.roll_back(&primary, lock_ts);
            self.roll_back(&key, lock_ts);
        } else {
            proof {
                assert(in_range(lock_ts, Some(lock_ts), Some(lock_ts)));
            }
            match self.data.find_commit(&primary, lock_ts) {
                Some(c) => {
                    self.data.write(copy_bytes(&key), Column::Write, c, Value::Timestamp(lock_ts));
                    self.data.erase(key, Column::Lock, lock_ts);
                },
                None => {
                    self.roll_back(&key, lock_ts);
                },
            }
        }
    }

    /// The first phase for one mutation: refused, and nothing changes, when
    /// the key has a write committed at or after the start timestamp or any
    /// lock; otherwise the data is written and the key locked, the lock
    /// naming the primary.
    pub fn prewrite(&mut self, req: PrewriteRequest) -> (r: PrewriteResponse)
        ensures
            r.ok == !prewrite_conflict(old(self)@, req.start_ts, req.key@),
            final(self)@ == if r.ok {
                prewritten(old(self)@, req.start_ts, req.primary@, req.key@, req.value@)
            } else {
                old(self)@
            },
    {
        let ghost t = self@;
        let newer_write = self.data.read(copy_bytes(&req.key), Column::Write, Some(req.start_ts), None).is_some();
        let any_lock = self.data.read(copy_bytes(&req.key), Column::Lock, None, None).is_some();
        proof {
            if newer_write {
                let c = latest(t.write, req.key@, Some(req.start_ts), None)->0;
                lemma_latest_some(t.write, req.key@, Some(req.start_ts), None);
                assert(req.start_ts <= c && t.write.contains_key((req.key@, c)));
            } else {
                assert forall|c: u64| req.start_ts <= c implies !t.write.contains_key((req.key@, c)) by {
                    assert(in_range(c, Some(req.start_ts), None));
                }
            }
            if any_lock {
                let l = latest(t.lock, req.key@, None, None)->0;
                lemma_latest_some(t.lock, req.key@, None, None);
                assert(t.lock.contains_key((req.key@, l)));
            } else {
                assert forall|l: u64| !t.lock.contains_key((req.key@, l)) by {
                    assert(in_range(l, None, None));
                }
            }
        }
        if newer_write || any_lock {
            return PrewriteResponse { ok: false };
        }
        self.data.write(req.key.clone(), Column::Data, req.start_ts, Value::Vector(req.value));
        self.data.write(req.key, Column::Lock, req.start_ts, Value::Vector(req.primary));
        PrewriteResponse { ok: true }
    }

    /// The second phase for one key: a primary whose lock is gone was rolled
    /// back, and its commit is refused with nothing changed; otherwise the
    /// commit record is written and the lock removed.
    pub fn commit(&mut self, req: CommitRequest) -> (r: CommitResponse)
        ensures
            r.ok == !commit_refused(old(self)@, req.is_primary, req.start_ts, req.key@),
            final(self)@ == if r.ok {
                roll_forward(old(self)@, req.key@, req.start_ts, req.commit_ts)
            } else {
                old(self)@
            },
    {
        let ghost t = self@;
        if req.is_primary {
            let locked = self.data.read(copy_bytes(&req.key), Column::Lock, Some(req.start_ts), Some(req.start_ts)).is_some();
            if !locked {
                proof {
                    assert(in_range(req.start_ts, Some(req.start_ts), Some(req.start_ts)));
                }
                return CommitResponse { ok: false };
            }
            proof {
                lemma_latest_some(t.lock, req.key@, Some(req.start_ts), Some(req.start_ts));
            }
        }
        self.data.write(copy_bytes(&req.key), Column::Write, req.commit_ts, Value::Timestamp(req.start_ts));
        self.data.erase(req.key, Column::Lock, req.start_ts);
        CommitResponse { ok: true }
    }
}

impl Default for MemoryStorage {
    fn default() -> (s: MemoryStorage)
        ensures
            s@.write == ColumnMap::empty(),
            s@.data == ColumnMap::empty(),
            s@.lock == ColumnMap::empty(),
    {
        MemoryStorage::new()
    }
}

} // verus!
