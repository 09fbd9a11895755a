//! Storage for Raft's persistent state and the key/value service snapshot.
use vstd::prelude::*;

verus! {

/// Where a Raft node keeps the state that must survive a crash: the encoded
/// Raft state and the latest service snapshot.
pub trait Persister {
    /// The Raft state saved last.
    spec fn spec_raft_state(&self) -> Seq<u8>;

    /// The service snapshot saved last.
    spec fn spec_snapshot(&self) -> Seq<u8>;

    /// Reads back the Raft state saved last.
    fn raft_state(&self) -> (state: Vec<u8>)
        ensures
            state@ == self.spec_raft_state(),
    ;

    /// Replaces the Raft state; the snapshot is kept.
    fn save_raft_state(&mut self, state: Vec<u8>)
        ensures
            final(self).spec_raft_state() == state@,
            final(self).spec_snapshot() == old(self).spec_snapshot(),
    ;

    /// Replaces both the Raft state and the snapshot in one step.
    fn save_state_and_snapshot(&mut self, state: Vec<u8>, snapshot: Vec<u8>)
        ensures
            final(self).spec_raft_state() == state@,
            final(self).spec_snapshot() == snapshot@,
    ;

    /// Reads back the snapshot saved last.
    fn snapshot(&self) -> (snapshot: Vec<u8>)
        ensures
            snapshot@ == self.spec_snapshot(),
    ;
}

impl<T: Persister + ?Sized> Persister for Box<T> {
    open spec fn spec_raft_state(&self) -> Seq<u8> {
        (**self).spec_raft_state()
    }

    open spec fn spec_snapshot(&self) -> Seq<u8> {
        (**self).spec_snapshot()
    }

    fn raft_state(&self) -> (state: Vec<u8>) {
        (**self).raft_state()
    }

    fn save_raft_state(&mut self, state: Vec<u8>) {
        (**self).save_raft_state(state)
    }

    fn save_state_and_snapshot(&mut self, state: Vec<u8>, snapshot: Vec<u8>) {
        (**self).save_state_and_snapshot(state, snapshot)
    }

    fn snapshot(&self) -> (snapshot: Vec<u8>) {
        (**self).snapshot()
    }
}

/// An in-memory persister: the Raft state and the snapshot as two byte
/// vectors.
pub struct SimplePersister {
    raft_state: Vec<u8>,
    snapshot: Vec<u8>,
}

impl SimplePersister {
    /// A persister that holds an empty state and an empty snapshot.
    pub fn new() -> (p: SimplePersister)
        ensures
            p.spec_raft_state() == Seq::<u8>::empty(),
            p.spec_snapshot() == Seq::<u8>::empty(),
    {
        SimplePersister { raft_state: Vec::new(), snapshot: Vec::new() }
    }
}

impl Persister for SimplePersister {
    closed spec fn spec_raft_state(&self) -> Seq<u8> {
        self.raft_state@
    }

    closed spec fn spec_snapshot(&self) -> Seq<u8> {
        self.snapshot@
    }

    fn raft_state(&self) -> (state: Vec<u8>) {
        self.raft_state.clone()
    }

    fn save_raft_state(&mut self, state: Vec<u8>) {
        self.raft_state = state;
    }

    fn save_state_and_snapshot(&mut self, state: Vec<u8>, snapshot: Vec<u8>) {
        self.raft_state = state;
        self.snapshot = snapshot;
    }

    fn snapshot(&self) -> (snapshot: Vec<u8>) {
        self.snapshot.clone()
    }
}

} // verus!
