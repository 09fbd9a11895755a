//! The client side of a transaction: its start timestamp, the writes it
//! buffers until it commits, and the requests of the two commit phases.
//!
//! The first buffered key is the primary. A transaction commits when every
//! prewrite took its lock and the primary's commit went through; the
//! secondaries are committed afterwards, and a failure there no longer
//! matters, since readers roll them forward from the primary.
use vstd::prelude::*;
use vstd::slice::slice_to_vec;
use super::storage::{CommitRequest, GetRequest, PrewriteRequest};
use super::table::{bytes_eq, Write};

verus! {

/// The views of buffered writes, key and value.
pub open spec fn writes_view(ws: Seq<Write>) -> Seq<(Seq<u8>, Seq<u8>)> {
    ws.map_values(|w: Write| (w.0@, w.1@))
}

/// `i` is the first position of `key` in the buffer.
pub open spec fn first_position(ws: Seq<(Seq<u8>, Seq<u8>)>, key: Seq<u8>, i: int) -> bool {
    &&& 0 <= i < ws.len()
    &&& ws[i].0 == key
    &&& forall|j: int| 0 <= j < i ==> (#[trigger] ws[j]).0 != key
}

/// The buffer after staging `value` for `key`: it replaces the value of
/// that key where the key is already buffered, and is added at the end
/// otherwise.
pub open spec fn staged(ws: Seq<(Seq<u8>, Seq<u8>)>, key: Seq<u8>, value: Seq<u8>) -> Seq<(Seq<u8>, Seq<u8>)> {
    if exists|i: int| first_position(ws, key, i) {
        ws.update(choose|i: int| first_position(ws, key, i), (key, value))
    } else {
        ws.push((key, value))
    }
}

/// No key is buffered twice.
pub open spec fn distinct_writes(ws: Seq<(Seq<u8>, Seq<u8>)>) -> bool {
    forall|i: int, j: int|
        0 <= i < ws.len() && 0 <= j < ws.len() && i != j ==> (#[trigger] ws[i]).0 != (
        #[trigger] ws[j]).0
}

/// A transaction in progress.
pub struct Client {
    start_ts: u64,
    writes: Vec<Write>,
}

impl Client {
    /// The start timestamp of the transaction.
    pub closed spec fn spec_start_ts(&self) -> u64 {
        self.start_ts
    }

    /// The writes buffered so far, in the order their keys were first set.
    pub closed spec fn buffered(&self) -> Seq<(Seq<u8>, Seq<u8>)> {
        writes_view(self.writes@)
    }

    /// A client with no transaction: start timestamp 0 and no writes.
    pub fn new() -> (c: Client)
        ensures
            c.spec_start_ts() == 0,
            c.buffered() == Seq::<(Seq<u8>, Seq<u8>)>::empty(),
    {
        let c = Client { start_ts: 0, writes: Vec::new() };
        assert(c.buffered() =~= Seq::<(Seq<u8>, Seq<u8>)>::empty());
        c
    }

    /// Begins a transaction at `start_ts`, a timestamp from the oracle; the
    /// buffer starts empty.
    pub fn begin(&mut self, start_ts: u64)
        ensures
            final(self).spec_start_ts() == start_ts,
            final(self).buffered() == Seq::<(Seq<u8>, Seq<u8>)>::empty(),
    {
        self.start_ts = start_ts;
        self.writes = Vec::new();
        assert(self.buffered() =~= Seq::<(Seq<u8>, Seq<u8>)>::empty());
    }

    /// The request that reads `key` at the start timestamp.
    pub fn get(&self, key: Vec<u8>) -> (req: GetRequest)
        ensures
            req.start_ts == self.spec_start_ts(),
            req.key == key,
    {
        GetRequest { start_ts: self.start_ts, key }
    }

    /// Buffers a write of `value` to `key` until the commit; a later write
    /// of the same key replaces the earlier one.
    pub fn set(&mut self, key: Vec<u8>, value: Vec<u8>)
        ensures
            final(self).spec_start_ts() == old(self).spec_start_ts(),
            final(self).buffered() == staged(old(self).buffered(), key@, value@),
            distinct_writes(old(self).buffered()) ==> distinct_writes(final(self).buffered()),
    {
        let ghost before = self.buffered();
        let mut i: usize = 0;
        while i < self.writes.len()
            invariant
                i <= self.writes.len(),
                before == writes_view(self.writes@),
                before == old(self).buffered(),
                self.start_ts == old(self).start_ts,
                forall|j: int| 0 <= j < i ==> (#[trigger] before[j]).0 != key@,
            decreases self.writes.len() - i,
        {
            if bytes_eq(self.writes[i].0.as_slice(), key.as_slice()) {
                proof {
                    assert(before[i as int].0 == key@);
                    assert(first_position(before, key@, i as int));
                    let c = choose|c: int| first_position(before, key@, c);
                    assert(c == i) by {
                        if c < i {
                            assert(before[c].0 != key@);
                        } else if c > i {
                            assert(before[i as int].0 != key@);
                        }
                    }
                }
                let ghost k = key@;
                let ghost v = value@;
                self.writes.set(i, Write(key, value));
                assert(self.buffered() =~= before.update(i as int, (k, v)));
                assert(distinct_writes(before) ==> distinct_writes(self.buffered())) by {
                    assert forall|a: int| 0 <= a < before.len() implies (#[trigger] self.buffered()[a]).0
                        == before[a].0 by {}
                }
                return;
            }
            i = i + 1;
        }
        let ghost k = key@;
        let ghost v = value@;
        self.writes.push(Write(key, value));
        assert(self.buffered() =~= before.push((k, v)));
        assert(!exists|c: int| first_position(before, k, c));
        assert(distinct_writes(before) ==> distinct_writes(self.buffered())) by {
            assert forall|a: int| 0 <= a < before.len() implies (#[trigger] self.buffered()[a]).0
                == before[a].0 && before[a].0 != k by {}
        }
    }

    /// The prewrite requests of the first phase, one per buffered write,
    /// each naming the first buffered key as the primary.
    pub fn prewrites(&self) -> (reqs: Vec<PrewriteRequest>)
        ensures
            reqs@.len() == self.buffered().len(),
            forall|i: int|
                0 <= i < reqs@.len() ==> {
                    &&& (#[trigger] reqs@[i]).start_ts == self.spec_start_ts()
                    &&& reqs@[i].primary@ == self.buffered()[0].0
                    &&& reqs@[i].key@ == self.buffered()[i].0
                    &&& reqs@[i].value@ == self.buffered()[i].1
                },
    {
        let mut reqs: Vec<PrewriteRequest> = Vec::new();
        if self.writes.len() == 0 {
            return reqs;
        }
        let mut i: usize = 0;
        while i < self.writes.len()
            invariant
                i <= self.writes.len(),
                self.writes.len() > 0,
                reqs@.len() == i,
                forall|j: int|
                    0 <= j < i ==> {
                        &&& (#[trigger] reqs@[j]).start_ts == self.start_ts
                        &&& reqs@[j].primary@ == self.writes@[0].0@
                        &&& reqs@[j].key@ == self.writes@[j].0@
                        &&& reqs@[j].value@ == self.writes@[j].1@
                    },
            decreases self.writes.len() - i,
        {
            let w = &self.writes[i];
            reqs.push(
                PrewriteRequest {
                    start_ts: self.start_ts,
                    primary: slice_to_vec(self.writes[0].0.as_slice()),
                    key: slice_to_vec(w.0.as_slice()),
                    value: slice_to_vec(w.1.as_slice()),
                },
            );
            i = i + 1;
        }
        reqs
    }

    /// The commit requests of the second phase at `commit_ts`, the primary
    /// first.
    pub fn commits(&self, commit_ts: u64) -> (reqs: Vec<CommitRequest>)
        ensures
            reqs@.len() == self.buffered().len(),
            forall|i: int|
                0 <= i < reqs@.len() ==> {
                    &&& (#[trigger] reqs@[i]).is_primary == (i == 0)
                    &&& reqs@[i].start_ts == self.spec_start_ts()
                    &&& reqs@[i].commit_ts == commit_ts
                    &&& reqs@[i].key@ == self.buffered()[i].0
                },
    {
        let mut reqs: Vec<CommitRequest> = Vec::new();
        let mut i: usize = 0;
        while i < self.writes.len()
            invariant
                i <= self.writes.len(),
                reqs@.len() == i,
                forall|j: int|
                    0 <= j < i ==> {
                        &&& (#[trigger] reqs@[j]).is_primary == (j == 0)
                        &&& reqs@[j].start_ts == self.start_ts
                        &&& reqs@[j].commit_ts == commit_ts
                        &&& reqs@[j].key@ == self.writes@[j].0@
                    },
            decreases self.writes.len() - i,
        {
            reqs.push(
                CommitRequest {
                    is_primary: i == 0,
                    start_ts: self.start_ts,
                    commit_ts,
                    key: slice_to_vec(self.writes[i].0.as_slice()),
                },
            );
            i = i + 1;
        }
        reqs
    }
}

/// Whether a transaction committed: every prewrite took its lock and the
/// primary's commit went through. A transaction without writes commits.
pub fn committed(prewrites_ok: &[bool], primary_ok: bool) -> (ok: bool)
    ensures
        ok == ((forall|i: int| 0 <= i < prewrites_ok@.len() ==> #[trigger] prewrites_ok@[i])
            && (prewrites_ok@.len() == 0 || primary_ok)),
{
    let mut i: usize = 0;
    while i < prewrites_ok.len()
        invariant
            i <= prewrites_ok@.len(),
            forall|j: int| 0 <= j < i ==> #[trigger] prewrites_ok@[j],
        decreases prewrites_ok@.len() - i,
    {
        if !prewrites_ok[i] {
            return false;
        }
        i = i + 1;
    }
    prewrites_ok.len() == 0 || primary_ok
}

} // verus!
