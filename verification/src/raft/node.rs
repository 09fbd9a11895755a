//! The executable Raft node, proved against the state machine of `spec`.
use vstd::prelude::*;
use rand::Rng;
use super::codec::{
    decode_state, encodable, lemma_state_bytes_injective, encode_state, entries_view, state_bytes, EntryView, LogEntry,
    PersistentStateView,
};
use super::errors::Error;
use super::messages::{
    envelopes_view, AppendEntriesArgs, AppendEntriesReply, Envelope, InstallSnapshotArgs,
    InstallSnapshotReply, Message, RequestVoteArgs, RequestVoteReply,
};
use super::persister::Persister;
use vstd::slice::slice_to_vec;
use super::spec::{
    advance_commit, after_apply, broadcast, commands_to_apply, count_replicated, count_votes,
    first_new_entry, leader_message, may_install, merged_log, on_append_entries,
    on_append_entries_reply, on_cond_install_snapshot, on_install_snapshot,
    on_install_snapshot_reply, on_message, on_request_vote, on_request_vote_reply, on_snapshot,
    on_start, on_tick, other_peers, replicated_on_majority, reply_to, tick_sends, to_apply,
    vote_request, commit_candidate, saved, lemma_commit_candidate_bounds,
    lemma_first_new_entry_bounds, become_leader, start_election, step_down, ApplyMsgView,
    RaftView, Role, SnapshotView, ELECTION_TIMEOUT_MAX, ELECTION_TIMEOUT_MIN,
    HEARTBEAT_INTERVAL,
};

verus! {

/// `rand::Rng::gen_range` on the thread's generator: an election timeout drawn
/// uniformly from `ELECTION_TIMEOUT_MIN..=ELECTION_TIMEOUT_MAX`. The contract
/// states only the range; which value comes out is left to chance.
#[verifier::external_body]
fn random_election_timeout() -> (t: u64)
    ensures
        ELECTION_TIMEOUT_MIN <= t <= ELECTION_TIMEOUT_MAX,
{
    rand::thread_rng().gen_range(ELECTION_TIMEOUT_MIN, ELECTION_TIMEOUT_MAX + 1)
}

/// A snapshot received from the leader, waiting for the service.
pub struct PendingSnapshot {
    pub term: u64,
    pub index: u64,
    pub data: Vec<u8>,
}

impl View for PendingSnapshot {
    type V = SnapshotView;

    open spec fn view(&self) -> SnapshotView {
        SnapshotView { term: self.term, index: self.index, data: self.data@ }
    }
}

/// A message from a Raft node to its service.
pub enum ApplyMsg {
    Command { data: Vec<u8>, index: u64 },
    Snapshot { data: Vec<u8>, term: u64, index: u64 },
}

impl View for ApplyMsg {
    type V = ApplyMsgView;

    open spec fn view(&self) -> ApplyMsgView {
        match self {
            ApplyMsg::Command { data, index } => ApplyMsgView::Command { data: data@, index: *index },
            ApplyMsg::Snapshot { data, term, index } => ApplyMsgView::Snapshot {
                data: data@,
                term: *term,
                index: *index,
            },
        }
    }
}

/// The views of a sequence of apply messages.
pub open spec fn apply_msgs_view(msgs: Seq<ApplyMsg>) -> Seq<ApplyMsgView> {
    msgs.map_values(|m: ApplyMsg| m@)
}

/// The state a node starts from when nothing was saved.
pub open spec fn initial_persistent() -> PersistentStateView {
    PersistentStateView {
        current_term: 0,
        voted_for: None,
        snapshot_index: 0,
        snapshot_term: 0,
        log: Seq::empty(),
    }
}

/// A saved state that a node of `n` peers can resume from.
pub open spec fn restorable(ps: PersistentStateView, n: usize) -> bool {
    &&& encodable(ps)
    &&& (ps.voted_for matches Some(c) ==> c < n)
    &&& ps.snapshot_index + ps.log.len() < u64::MAX - 1
}

/// A Raft peer.
pub struct Raft<P: Persister> {
    persister: P,
    me: usize,
    n: usize,
    current_term: u64,
    voted_for: Option<usize>,
    role: Role,
    snapshot_index: u64,
    snapshot_term: u64,
    log: Vec<LogEntry>,
    commit_index: u64,
    last_applied: u64,
    votes: Vec<bool>,
    next_index: Vec<u64>,
    match_index: Vec<u64>,
    election_elapsed: u64,
    election_timeout: u64,
    heartbeat_elapsed: u64,
    pending_snapshot: Option<PendingSnapshot>,
}

impl<P: Persister> View for Raft<P> {
    type V = RaftView;

    closed spec fn view(&self) -> RaftView {
        RaftView {
            me: self.me,
            n: self.n,
            current_term: self.current_term,
            voted_for: self.voted_for,
            role: self.role,
            snapshot_index: self.snapshot_index,
            snapshot_term: self.snapshot_term,
            log: entries_view(self.log@),
            commit_index: self.commit_index,
            last_applied: self.last_applied,
            votes: self.votes@,
            next_index: self.next_index@,
            match_index: self.match_index@,
            election_elapsed: self.election_elapsed,
            election_timeout: self.election_timeout,
            heartbeat_elapsed: self.heartbeat_elapsed,
            snapshot: self.persister.spec_snapshot(),
            pending_snapshot: match self.pending_snapshot {
                None => None,
                Some(p) => Some(p@),
            },
            persisted: self.persister.spec_raft_state(),
        }
    }
}

impl<P: Persister> Raft<P> {
    /// The persister, to read what the node saved.
    pub closed spec fn spec_persister(&self) -> P {
        self.persister
    }

    /// Creates the node `me` of a group of `n`, resuming from what `persister`
    /// holds: from scratch when it holds no state, else from the saved state.
    pub fn new(n: usize, me: usize, persister: P) -> (r: Result<Raft<P>, Error>)
        requires
            me < n,
        ensures
            match r {
                Ok(rf) => {
                    &&& rf@.wf()
                    &&& rf@.me == me
                    &&& rf@.n == n
                    &&& rf@.role == Role::Follower
                    &&& rf@.commit_index == rf@.snapshot_index
                    &&& rf@.last_applied == rf@.snapshot_index
                    &&& rf@.pending_snapshot is None
                    &&& rf@.snapshot == persister.spec_snapshot()
                    &&& rf@.election_elapsed == 0
                    &&& restorable(rf@.persistent(), n)
                    &&& (persister.spec_raft_state().len() == 0 ==> rf@.persistent()
                        == initial_persistent())
                    &&& (persister.spec_raft_state().len() != 0 ==> state_bytes(
                        rf@.persistent(),
                    ) == persister.spec_raft_state())
                },
                Err(e) => {
                    &&& e == Error::Decode
                    &&& persister.spec_raft_state().len() != 0
                    &&& forall|ps: PersistentStateView|
                        restorable(ps, n) ==> state_bytes(ps) != persister.spec_raft_state()
                },
            },
    {
        let saved = persister.raft_state();
        let mut votes: Vec<bool> = Vec::new();
        let mut next_index: Vec<u64> = Vec::new();
        let mut match_index: Vec<u64> = Vec::new();
        let mut i: usize = 0;
        while i < n
            invariant
                i <= n,
                votes@.len() == i,
                next_index@.len() == i,
                match_index@.len() == i,
            decreases n - i,
        {
            votes.push(false);
            next_index.push(1);
            match_index.push(0);
            i = i + 1;
        }
        let timeout = random_election_timeout();
        let mut rf = Raft {
            persister,
            me,
            n,
            current_term: 0,
            voted_for: None,
            role: Role::Follower,
            snapshot_index: 0,
            snapshot_term: 0,
            log: Vec::new(),
            commit_index: 0,
            last_applied: 0,
            votes,
            next_index,
            match_index,
            election_elapsed: 0,
            election_timeout: timeout,
            heartbeat_elapsed: 0,
            pending_snapshot: None,
        };
        if saved.len() != 0 {
            match decode_state(saved.as_slice()) {
                Some(ps) => {
                    let ok_vote = match ps.voted_for {
                        None => true,
                        Some(c) => c < n,
                    };
                    if !ok_vote || ps.snapshot_index >= u64::MAX - 1 || ps.log.len() as u64
                        >= u64::MAX - 1 - ps.snapshot_index {
                        proof {
                            assert forall|q: PersistentStateView| restorable(q, n) implies state_bytes(
                                q,
                            ) != saved@ by {
                                if state_bytes(q) == saved@ {
                                    lemma_state_bytes_injective(q, ps@);
                                }
                            }
                        }
                        return Err(Error::Decode);
                    }
                    rf.current_term = ps.current_term;
                    rf.voted_for = ps.voted_for;
                    rf.snapshot_index = ps.snapshot_index;
                    rf.snapshot_term = ps.snapshot_term;
                    rf.log = ps.log;
                    rf.commit_index = ps.snapshot_index;
                    rf.last_applied = ps.snapshot_index;
                    proof {
                        assert(rf@.persistent() == ps@);
                    }
                    return Ok(rf);
                },
                None => {
                    return Err(Error::Decode);
                },
            }
        }
        rf.persist();
        proof {
            assert(rf@.persistent().log =~= initial_persistent().log);
        }
        Ok(rf)
    }

    /// Saves the persistent part of the state.
    fn persist(&mut self)
        requires
            vote_code_fits(old(self).voted_for),
        ensures
            final(self)@ == (RaftView { persisted: state_bytes(old(self)@.persistent()), ..old(self)@ }),
            final(self).me == old(self).me,
    {
        let bytes = encode_state(
            self.current_term,
            self.voted_for,
            self.snapshot_index,
            self.snapshot_term,
            &self.log,
        );
        self.persister.save_raft_state(bytes);
    }
}


impl<P: Persister> Raft<P> {
    fn last_index(&self) -> (r: u64)
        requires
            self@.snapshot_index + self@.log.len() < u64::MAX,
        ensures
            r == self@.last_index(),
    {
        self.snapshot_index + self.log.len() as u64
    }

    fn term_at(&self, i: u64) -> (t: u64)
        requires
            self@.snapshot_index + self@.log.len() < u64::MAX,
        ensures
            t == self@.term_at(i as int),
    {
        if i == self.snapshot_index {
            self.snapshot_term
        } else if self.snapshot_index < i && i <= self.last_index() {
            let len = self.log.len();
            assert(self@.log.len() == len);
            assert(i - self.snapshot_index - 1 < len);
            let k = (i - self.snapshot_index - 1) as usize;
            assert(k as int == i - self.snapshot_index - 1);
            assert(self@.log[k as int] == self.log@[k as int]@);
            self.log[k].term
        } else {
            0
        }
    }

    /// Whether a majority holds the entry at `idx`.
    fn majority_has(&self, idx: u64) -> (b: bool)
        requires
            self@.structural(),
        ensures
            b == replicated_on_majority(self@, idx as int),
    {
        let last = self.last_index();
        let mut cnt: usize = 0;
        let mut k: usize = 0;
        while k < self.n
            invariant
                self@.structural(),
                last == self@.last_index(),
                k <= self@.n,
                cnt <= k,
                cnt == count_replicated(self@.me, last as int, self@.match_index, idx as int, k as int),
            decreases self@.n - k,
        {
            let has = if k == self.me {
                idx <= last
            } else {
                self.match_index[k] >= idx
            };
            if has {
                cnt = cnt + 1;
            }
            k = k + 1;
        }
        cnt > self.n / 2
    }

    /// Whether the votes held make a majority.
    fn has_vote_majority(&self) -> (b: bool)
        requires
            self@.structural(),
        ensures
            b == (2 * count_votes(self@.votes, self@.n as int) > self@.n),
    {
        let mut cnt: usize = 0;
        let mut k: usize = 0;
        while k < self.n
            invariant
                self@.structural(),
                k <= self@.n,
                cnt <= k,
                cnt == count_votes(self@.votes, k as int),
            decreases self@.n - k,
        {
            if self.votes[k] {
                cnt = cnt + 1;
            }
            k = k + 1;
        }
        cnt > self.n / 2
    }

    fn do_advance_commit(&mut self)
        requires
            old(self)@.structural(),
        ensures
            final(self)@ == advance_commit(old(self)@),
            final(self)@.structural(),
            final(self).me == old(self).me,
    {
        let ghost s = self@;
        proof {
            lemma_commit_candidate_bounds(s, s.last_index());
        }
        let last = self.last_index();
        let mut idx = last;
        while idx > self.commit_index
            invariant
                self@ == s,
                s == old(self)@,
                self.me == old(self).me,
                s.structural(),
                idx <= last,
                last == s.last_index(),
                commit_candidate(s, last as int) == commit_candidate(s, idx as int),
            decreases idx,
        {
            if self.term_at(idx) == self.current_term && self.majority_has(idx) {
                self.commit_index = idx;
                return;
            }
            idx = idx - 1;
        }
    }

    fn do_step_down(&mut self, term: u64)
        requires
            old(self)@.structural(),
            term > old(self)@.current_term,
        ensures
            final(self)@ == step_down(old(self)@, term),
            final(self).me == old(self).me,
    {
        self.current_term = term;
        self.voted_for = None;
        self.role = Role::Follower;
    }

    fn do_become_leader(&mut self)
        requires
            old(self)@.structural(),
        ensures
            final(self)@ == become_leader(old(self)@),
            final(self).me == old(self).me,
    {
        let last = self.last_index();
        let mut next_index: Vec<u64> = Vec::new();
        let mut match_index: Vec<u64> = Vec::new();
        let mut i: usize = 0;
        while i < self.n
            invariant
                i <= self@.n,
                last == self@.last_index(),
                last < u64::MAX - 1,
                next_index@ =~= Seq::new(i as nat, |j: int| (last + 1) as u64),
                match_index@ =~= Seq::new(
                    i as nat,
                    |j: int|
                        if j == self@.me {
                            last
                        } else {
                            0u64
                        },
                ),
            decreases self@.n - i,
        {
            next_index.push(last + 1);
            if i == self.me {
                match_index.push(last);
            } else {
                match_index.push(0);
            }
            i = i + 1;
        }
        self.next_index = next_index;
        self.match_index = match_index;
        self.role = Role::Leader;
        self.heartbeat_elapsed = HEARTBEAT_INTERVAL;
    }

    /// The entries from index `from` to the end of the log.
    fn entries_from(&self, from: u64) -> (es: Vec<LogEntry>)
        requires
            self@.structural(),
            self@.snapshot_index < from <= self@.last_index() + 1,
        ensures
            entries_view(es@) == self@.log.skip(from - 1 - self@.snapshot_index),
    {
        assert(from - 1 - self.snapshot_index <= self.log@.len());
        let start = (from - 1 - self.snapshot_index) as usize;
        let mut es: Vec<LogEntry> = Vec::new();
        let mut k = start;
        while k < self.log.len()
            invariant
                start <= k <= self.log@.len(),
                entries_view(es@) =~= self@.log.subrange(start as int, k as int),
                self@.log == entries_view(self.log@),
            decreases self.log@.len() - k,
        {
            let e = self.log[k].clone();
            proof {
                assert(self@.log[k as int] == self.log@[k as int]@);
            }
            let ghost old_es = es@;
            es.push(e);
            proof {
                assert(entries_view(es@) =~= entries_view(old_es).push(e@));
            }
            k = k + 1;
        }
        assert(self@.log.subrange(start as int, self.log@.len() as int) =~= self@.log.skip(
            start as int,
        ));
        es
    }

    /// What the leader sends to peer `i`.
    fn message_for(&self, i: usize) -> (m: Message)
        requires
            self@.structural(),
            self@.role == Role::Leader,
            i < self@.n,
        ensures
            m@ == leader_message(self@, i as int),
    {
        let next = self.next_index[i];
        if next <= self.snapshot_index {
            Message::InstallSnapshot(
                InstallSnapshotArgs {
                    term: self.current_term,
                    leader_id: self.me,
                    last_included_index: self.snapshot_index,
                    last_included_term: self.snapshot_term,
                    data: self.persister.snapshot(),
                },
            )
        } else {
            Message::AppendEntries(
                AppendEntriesArgs {
                    term: self.current_term,
                    leader_id: self.me,
                    prev_log_index: next - 1,
                    prev_log_term: self.term_at(next - 1),
                    entries: self.entries_from(next),
                    leader_commit: self.commit_index,
                },
            )
        }
    }

    fn vote_request_message(&self) -> (m: Message)
        requires
            self@.structural(),
        ensures
            m@ == vote_request(self@),
    {
        Message::RequestVote(
            RequestVoteArgs {
                term: self.current_term,
                candidate_id: self.me,
                last_log_index: self.last_index(),
                last_log_term: self.term_at(self.last_index()),
            },
        )
    }

    /// One message to every other peer.
    fn do_broadcast(&self) -> (out: Vec<Envelope>)
        requires
            self@.structural(),
        ensures
            envelopes_view(out@) == broadcast(self@),
    {
        let ghost peers = other_peers(self@.n, self@.me);
        let mut out: Vec<Envelope> = Vec::new();
        let mut i: usize = 0;
        while i < self.n
            invariant
                self@.structural(),
                peers == other_peers(self@.n, self@.me),
                i <= self@.n,
                out@.len() == if i <= self@.me {
                    i as int
                } else {
                    i - 1
                },
                envelopes_view(out@) =~= broadcast(self@).take(out@.len() as int),
            decreases self@.n - i,
        {
            if i != self.me {
                let msg = if self.role == Role::Leader {
                    self.message_for(i)
                } else {
                    self.vote_request_message()
                };
                proof {
                    let k = out@.len() as int;
                    assert(peers[k] == i);
                }
                out.push(Envelope { to: i, msg });
            }
            i = i + 1;
        }
        out
    }
}


impl<P: Persister> Raft<P> {
    /// Advances the clock by one tick. A follower or candidate whose election
    /// timeout has passed starts an election and asks every peer for its
    /// vote; a leader whose heartbeat interval has passed sends every peer
    /// the entries it lacks, or the snapshot.
    pub fn tick(&mut self) -> (out: Vec<Envelope>)
        requires
            old(self)@.wf(),
        ensures
            final(self)@.wf(),
            final(self)@ == saved(on_tick(old(self)@, final(self)@.election_timeout)),
            envelopes_view(out@) == if tick_sends(old(self)@) {
                broadcast(final(self)@)
            } else {
                Seq::empty()
            },
    {
        let ghost s = self@;
        if self.role == Role::Leader {
            if self.heartbeat_elapsed + 1 >= HEARTBEAT_INTERVAL {
                self.heartbeat_elapsed = 0;
                assert(saved(self@) == self@);
                return self.do_broadcast();
            } else {
                self.heartbeat_elapsed = self.heartbeat_elapsed + 1;
                assert(saved(self@) == self@);
                return Vec::new();
            }
        }
        if self.election_elapsed + 1 >= self.election_timeout && self.current_term < u64::MAX {
            let timeout = random_election_timeout();
            self.current_term = self.current_term + 1;
            self.voted_for = Some(self.me);
            self.role = Role::Candidate;
            let mut votes: Vec<bool> = Vec::new();
            let mut i: usize = 0;
            while i < self.n
                invariant
                    i <= self@.n,
                    votes@ =~= Seq::new(i as nat, |j: int| j == self@.me),
                decreases self@.n - i,
            {
                votes.push(i == self.me);
                i = i + 1;
            }
            self.votes = votes;
            self.election_elapsed = 0;
            self.election_timeout = timeout;
            assert(self@ == (RaftView {
                current_term: (s.current_term + 1) as u64,
                voted_for: Some(s.me),
                role: Role::Candidate,
                votes: Seq::new(s.n as nat, |i: int| i == s.me),
                election_elapsed: 0,
                election_timeout: timeout,
                ..s
            }));
            if self.has_vote_majority() {
                self.do_become_leader();
            }
            self.persist();
            return self.do_broadcast();
        }
        if self.election_elapsed + 1 < self.election_timeout {
            self.election_elapsed = self.election_elapsed + 1;
        }
        assert(saved(self@) == self@);
        Vec::new()
    }

    /// The service asks the leader to replicate `data`: the index it will
    /// have once committed and the current term; an error elsewhere.
    pub fn start(&mut self, data: Vec<u8>) -> (r: Result<(u64, u64), Error>)
        requires
            old(self)@.wf(),
        ensures
            final(self)@.wf(),
            match on_start(old(self)@, data@) {
                Some(s1) => {
                    &&& final(self)@ == saved(s1)
                    &&& r == Ok::<(u64, u64), Error>(
                        ((old(self)@.last_index() + 1) as u64, old(self)@.current_term),
                    )
                },
                None => {
                    &&& final(self)@ == old(self)@
                    &&& r == Err::<(u64, u64), Error>(
                        if old(self)@.role != Role::Leader {
                            Error::NotLeader
                        } else {
                            Error::LogFull
                        },
                    )
                },
            },
    {
        if self.role != Role::Leader {
            return Err(Error::NotLeader);
        }
        let last = self.last_index();
        if last + 1 >= u64::MAX - 1 {
            return Err(Error::LogFull);
        }
        let ghost s = self@;
        let ghost d = data@;
        let dl = data.len();
        self.log.push(LogEntry { term: self.current_term, data });
        let me = self.me;
        self.match_index.set(me, last + 1);
        assert(self@.log =~= s.log.push(EntryView { term: s.current_term, data: d }));
        assert(d.len() == dl);
        assert(forall|i: int|
            0 <= i < self@.n ==> 1 <= #[trigger] self@.next_index[i] <= self@.last_index() + 1
                && self@.match_index[i] <= self@.last_index());
        self.do_advance_commit();
        self.persist();
        Ok((last + 1, self.current_term))
    }

    fn handle_request_vote(&mut self, a: RequestVoteArgs) -> (r: RequestVoteReply)
        requires
            old(self)@.wf(),
        ensures
            final(self)@.wf(),
            final(self)@ == saved(on_request_vote(old(self)@, a).0),
            r == on_request_vote(old(self)@, a).1,
    {
        let mut changed = false;
        if a.term > self.current_term {
            self.do_step_down(a.term);
            changed = true;
        }
        let last = self.last_index();
        let last_term = self.term_at(last);
        let up = a.last_log_term > last_term || (a.last_log_term == last_term && a.last_log_index
            >= last);
        let can = match self.voted_for {
            None => true,
            Some(c) => c == a.candidate_id,
        };
        let grant = a.term == self.current_term && a.candidate_id < self.n && can && up;
        if grant {
            self.voted_for = Some(a.candidate_id);
            self.election_elapsed = 0;
            changed = true;
        }
        if changed {
            self.persist();
        } else {
            assert(saved(self@) == self@);
        }
        RequestVoteReply { term: self.current_term, vote_granted: grant }
    }

    fn handle_request_vote_reply(&mut self, from: usize, r: RequestVoteReply)
        requires
            old(self)@.wf(),
        ensures
            final(self)@.wf(),
            final(self)@ == saved(on_request_vote_reply(old(self)@, from, r)),
    {
        if r.term > self.current_term {
            self.do_step_down(r.term);
            self.persist();
            return;
        }
        if self.role == Role::Candidate && r.term == self.current_term && r.vote_granted && from
            < self.n {
            self.votes.set(from, true);
            if self.has_vote_majority() {
                self.do_become_leader();
            }
        }
        assert(saved(self@) == self@);
    }
}


impl<P: Persister> Raft<P> {
    fn first_new(&self, prev: u64, entries: &Vec<LogEntry>) -> (k: usize)
        requires
            self@.structural(),
            prev <= self@.last_index(),
        ensures
            k == first_new_entry(self@, prev as int, entries_view(entries@), 0),
    {
        let ghost ev = entries_view(entries@);
        let last = self.last_index();
        let mut k: usize = 0;
        while k < entries.len()
            invariant
                self@.structural(),
                last == self@.last_index(),
                prev <= last,
                ev == entries_view(entries@),
                k <= entries@.len(),
                first_new_entry(self@, prev as int, ev, 0) == first_new_entry(
                    self@,
                    prev as int,
                    ev,
                    k as int,
                ),
            decreases entries@.len() - k,
        {
            assert(ev[k as int] == entries@[k as int]@);
            if prev as u128 + 1 + k as u128 > self.commit_index as u128 {
                if prev as u128 + 1 + k as u128 > last as u128 {
                    return k;
                }
                let idx = prev + 1 + k as u64;
                if self.term_at(idx) != entries[k].term {
                    return k;
                }
            }
            k = k + 1;
        }
        k
    }

    #[verifier::rlimit(60)]
    #[verifier::spinoff_prover]
    fn handle_append_entries(&mut self, a: AppendEntriesArgs) -> (r: AppendEntriesReply)
        requires
            old(self)@.wf(),
        ensures
            final(self)@.wf(),
            final(self)@ == saved(on_append_entries(old(self)@, a@).0),
            r == on_append_entries(old(self)@, a@).1,
    {
        let ghost s = self@;
        let ghost av = a@;
        if a.term < self.current_term {
            assert(saved(self@) == self@);
            return AppendEntriesReply {
                term: self.current_term,
                success: false,
                match_index: 0,
                conflict_index: 0,
            };
        }
        let mut changed = false;
        if a.term > self.current_term {
            self.current_term = a.term;
            self.voted_for = None;
            changed = true;
        }
        self.role = Role::Follower;
        self.election_elapsed = 0;
        let ghost s1 = self@;
        let fail = AppendEntriesReply {
            term: a.term,
            success: false,
            match_index: 0,
            conflict_index: self.commit_index + 1,
        };
        let last = self.last_index();
        let n_entries = a.entries.len() as u64;
        let prev = a.prev_log_index;
        if prev > last || n_entries >= u64::MAX - 1 - prev {
            if changed {
                self.persist();
            } else {
                assert(saved(self@) == self@);
            }
            return fail;
        }
        if prev > self.commit_index && self.term_at(prev) != a.prev_log_term {
            if changed {
                self.persist();
            } else {
                assert(saved(self@) == self@);
            }
            return fail;
        }
        let k = self.first_new(prev, &a.entries);
        proof {
            lemma_first_new_entry_bounds(s1, prev as int, av.entries, 0);
        }
        let last_new = prev + n_entries;
        if k < a.entries.len() {
            let keep = (prev + k as u64 - self.snapshot_index) as usize;
            let ghost old_log = self.log@;
            self.log.truncate(keep);
            let mut entries = a.entries;
            let mut tail = entries.split_off(k);
            let ghost tail_v = tail@;
            self.log.append(&mut tail);
            proof {
                assert(self.log@ =~= old_log.take(keep as int) + tail_v);
                assert(entries_view(self.log@) =~= entries_view(old_log).take(keep as int)
                    + av.entries.skip(k as int));
            }
            changed = true;
        }
        assert(self@.log == merged_log(s1, prev as int, av.entries));
        let lc = a.leader_commit;
        if lc > self.commit_index && lc <= last_new {
            self.commit_index = lc;
        } else if lc > self.commit_index && last_new > self.commit_index {
            self.commit_index = last_new;
        }
        if changed {
            self.persist();
        } else {
            assert(saved(self@) == self@);
        }
        AppendEntriesReply { term: a.term, success: true, match_index: last_new, conflict_index: 0 }
    }

    #[verifier::spinoff_prover]
    #[verifier::rlimit(30)]
    fn handle_append_entries_reply(&mut self, from: usize, r: AppendEntriesReply)
        requires
            old(self)@.wf(),
        ensures
            final(self)@.wf(),
            final(self)@ == saved(on_append_entries_reply(old(self)@, from, r)),
    {
        if r.term > self.current_term {
            self.do_step_down(r.term);
            self.persist();
            return;
        }
        if self.role == Role::Leader && r.term == self.current_term && from < self.n && from
            != self.me {
            let last = self.last_index();
            assert(1 <= self@.next_index[from as int]);
            if r.success {
                let m = if r.match_index <= last {
                    r.match_index
                } else {
                    last
                };
                let new_match = if m > self.match_index[from] {
                    m
                } else {
                    self.match_index[from]
                };
                let ghost s0 = self@;
                self.match_index.set(from, new_match);
                self.next_index.set(from, new_match + 1);
                assert forall|i: int| 0 <= i < self@.n implies 1 <= #[trigger] self@.next_index[i]
                    <= self@.last_index() + 1 && self@.match_index[i] <= self@.last_index() by {
                    if i != from {
                        assert(1 <= s0.next_index[i]);
                    }
                }
                self.do_advance_commit();
            } else {
                let c = if r.conflict_index > last + 1 {
                    last + 1
                } else {
                    r.conflict_index
                };
                let floor = self.match_index[from] + 1;
                let next = if c < floor {
                    floor
                } else {
                    c
                };
                self.next_index.set(from, next);
            }
        }
        assert(saved(self@) == self@);
    }

    fn handle_install_snapshot(&mut self, a: InstallSnapshotArgs) -> (r: InstallSnapshotReply)
        requires
            old(self)@.wf(),
        ensures
            final(self)@.wf(),
            final(self)@ == saved(on_install_snapshot(old(self)@, a@).0),
            r == on_install_snapshot(old(self)@, a@).1,
    {
        if a.term < self.current_term {
            assert(saved(self@) == self@);
            return InstallSnapshotReply {
                term: self.current_term,
                last_included_index: a.last_included_index,
            };
        }
        let mut changed = false;
        if a.term > self.current_term {
            self.current_term = a.term;
            self.voted_for = None;
            changed = true;
        }
        self.role = Role::Follower;
        self.election_elapsed = 0;
        let term = a.term;
        let index = a.last_included_index;
        if index > self.commit_index && index < u64::MAX - 1 {
            self.pending_snapshot = Some(
                PendingSnapshot { term: a.last_included_term, index, data: a.data },
            );
        }
        if changed {
            self.persist();
        } else {
            assert(saved(self@) == self@);
        }
        InstallSnapshotReply { term, last_included_index: index }
    }

    fn handle_install_snapshot_reply(&mut self, from: usize, r: InstallSnapshotReply)
        requires
            old(self)@.wf(),
        ensures
            final(self)@.wf(),
            final(self)@ == saved(on_install_snapshot_reply(old(self)@, from, r)),
    {
        if r.term > self.current_term {
            self.do_step_down(r.term);
            self.persist();
            return;
        }
        if self.role == Role::Leader && r.term == self.current_term && from < self.n && from
            != self.me {
            let last = self.last_index();
            assert(1 <= self@.next_index[from as int]);
            let m = if r.last_included_index <= last {
                r.last_included_index
            } else {
                last
            };
            let new_match = if m > self.match_index[from] {
                m
            } else {
                self.match_index[from]
            };
            let old_next = self.next_index[from];
            let next = if old_next > new_match + 1 {
                old_next
            } else {
                new_match + 1
            };
            let ghost s0 = self@;
            self.match_index.set(from, new_match);
            self.next_index.set(from, next);
            assert forall|i: int| 0 <= i < self@.n implies 1 <= #[trigger] self@.next_index[i]
                <= self@.last_index() + 1 && self@.match_index[i] <= self@.last_index() by {
                if i != from {
                    assert(1 <= s0.next_index[i]);
                }
            }
            self.do_advance_commit();
        }
        assert(saved(self@) == self@);
    }

    /// Handles a message from peer `from`; the answer, if the message asks
    /// for one, goes back to `from`.
    pub fn step(&mut self, from: usize, msg: Message) -> (out: Vec<Envelope>)
        requires
            old(self)@.wf(),
        ensures
            final(self)@.wf(),
            final(self)@ == saved(on_message(old(self)@, from, msg@)),
            envelopes_view(out@) == reply_to(old(self)@, from, msg@),
    {
        let mut out: Vec<Envelope> = Vec::new();
        match msg {
            Message::RequestVote(a) => {
                let r = self.handle_request_vote(a);
                out.push(Envelope { to: from, msg: Message::RequestVoteReply(r) });
            },
            Message::RequestVoteReply(r) => {
                self.handle_request_vote_reply(from, r);
            },
            Message::AppendEntries(a) => {
                let r = self.handle_append_entries(a);
                out.push(Envelope { to: from, msg: Message::AppendEntriesReply(r) });
            },
            Message::AppendEntriesReply(r) => {
                self.handle_append_entries_reply(from, r);
            },
            Message::InstallSnapshot(a) => {
                let r = self.handle_install_snapshot(a);
                out.push(Envelope { to: from, msg: Message::InstallSnapshotReply(r) });
            },
            Message::InstallSnapshotReply(r) => {
                self.handle_install_snapshot_reply(from, r);
            },
        }
        proof {
            assert(envelopes_view(out@) =~= reply_to(old(self)@, from, msg@));
        }
        out
    }
}


impl<P: Persister> Raft<P> {
    /// The service has a snapshot holding everything up to `index`: the log
    /// up to there is dropped and the snapshot saved with the state.
    /// Ignored unless `index` is beyond the current snapshot and applied.
    pub fn snapshot(&mut self, index: u64, snapshot: &[u8])
        requires
            old(self)@.wf(),
        ensures
            final(self)@.wf(),
            final(self)@ == saved(on_snapshot(old(self)@, index, snapshot@)),
    {
        if index <= self.snapshot_index || index > self.last_applied {
            assert(saved(self@) == self@);
            return;
        }
        let ghost s = self@;
        let term = self.term_at(index);
        let len = self.log.len();
        assert(index - self.snapshot_index <= len);
        let drop = (index - self.snapshot_index) as usize;
        let ghost old_log = self.log@;
        let rest = self.log.split_off(drop);
        self.log = rest;
        self.snapshot_index = index;
        self.snapshot_term = term;
        proof {
            assert(entries_view(self.log@) =~= s.log.skip(index - s.snapshot_index));
        }
        let bytes = encode_state(
            self.current_term,
            self.voted_for,
            self.snapshot_index,
            self.snapshot_term,
            &self.log,
        );
        self.persister.save_state_and_snapshot(bytes, slice_to_vec(snapshot));
    }

    /// The service asks to switch to a snapshot it received through
    /// `take_apply_msgs`. Granted, and the log trimmed to what follows the
    /// snapshot, only when the node has not committed that far itself.
    pub fn cond_install_snapshot(
        &mut self,
        last_included_term: u64,
        last_included_index: u64,
        snapshot: &[u8],
    ) -> (installed: bool)
        requires
            old(self)@.wf(),
        ensures
            final(self)@.wf(),
            installed == may_install(old(self)@, last_included_term, last_included_index),
            final(self)@ == saved(
                on_cond_install_snapshot(
                    old(self)@,
                    last_included_term,
                    last_included_index,
                    snapshot@,
                ),
            ),
    {
        let index = last_included_index;
        let term = last_included_term;
        if !(index > self.commit_index && index < u64::MAX - 1 && self.role != Role::Leader) {
            assert(saved(self@) == self@);
            return false;
        }
        let ghost s = self@;
        let last = self.last_index();
        if index < last && self.term_at(index) == term {
            let len = self.log.len();
            assert(index - self.snapshot_index <= len);
            let drop = (index - self.snapshot_index) as usize;
            let rest = self.log.split_off(drop);
            self.log = rest;
            proof {
                assert(entries_view(self.log@) =~= s.log.skip(index - s.snapshot_index));
            }
        } else {
            self.log = Vec::new();
            proof {
                assert(entries_view(self.log@) =~= Seq::<EntryView>::empty());
            }
        }
        self.snapshot_index = index;
        self.snapshot_term = term;
        self.commit_index = index;
        self.last_applied = index;
        self.pending_snapshot = None;
        let bytes = encode_state(
            self.current_term,
            self.voted_for,
            self.snapshot_index,
            self.snapshot_term,
            &self.log,
        );
        self.persister.save_state_and_snapshot(bytes, slice_to_vec(snapshot));
        true
    }

    /// Everything the service is to learn now: the committed commands it has
    /// not seen, in log order, then a snapshot from the leader if one waits.
    pub fn take_apply_msgs(&mut self) -> (msgs: Vec<ApplyMsg>)
        requires
            old(self)@.wf(),
        ensures
            final(self)@.wf(),
            final(self)@ == after_apply(old(self)@),
            apply_msgs_view(msgs@) == to_apply(old(self)@),
    {
        let ghost s = self@;
        let mut msgs: Vec<ApplyMsg> = Vec::new();
        while self.last_applied < self.commit_index
            invariant
                self@ == (RaftView { last_applied: self@.last_applied, ..s }),
                s.wf(),
                s.last_applied <= self@.last_applied <= s.commit_index,
                apply_msgs_view(msgs@) =~= commands_to_apply(s).take(
                    self@.last_applied - s.last_applied,
                ),
            decreases s.commit_index - self@.last_applied,
        {
            let idx = self.last_applied + 1;
            let len = self.log.len();
            assert(idx - self.snapshot_index - 1 < len);
            let k = (idx - self.snapshot_index - 1) as usize;
            proof {
                assert(self@.log[k as int] == self.log@[k as int]@);
            }
            let data = slice_to_vec(self.log[k].data.as_slice());
            proof {
                let j = idx - 1 - s.last_applied;
                assert(commands_to_apply(s)[j] == ApplyMsgView::Command { data: data@, index: idx });
            }
            let ghost old_msgs = msgs@;
            msgs.push(ApplyMsg::Command { data, index: idx });
            self.last_applied = idx;
            proof {
                assert(apply_msgs_view(msgs@) =~= apply_msgs_view(old_msgs).push(
                    ApplyMsgView::Command { data: data@, index: idx },
                ));
            }
        }
        proof {
            assert(commands_to_apply(s).take(s.commit_index - s.last_applied) =~= commands_to_apply(
                s,
            ));
        }
        let pending = self.pending_snapshot.take();
        match pending {
            Some(p) => {
                let ghost old_msgs = msgs@;
                let ghost pv = p@;
                msgs.push(ApplyMsg::Snapshot { data: p.data, term: p.term, index: p.index });
                proof {
                    assert(apply_msgs_view(msgs@) =~= apply_msgs_view(old_msgs).push(
                        ApplyMsgView::Snapshot { data: pv.data, term: pv.term, index: pv.index },
                    ));
                }
            },
            None => {},
        }
        msgs
    }

    /// The current term.
    pub fn term(&self) -> (t: u64)
        ensures
            t == self@.current_term,
    {
        self.current_term
    }

    /// Whether this node believes it leads.
    pub fn is_leader(&self) -> (b: bool)
        ensures
            b == (self@.role == Role::Leader),
    {
        self.role == Role::Leader
    }

    /// The index of the last command the service has been handed.
    pub fn last_applied(&self) -> (i: u64)
        ensures
            i == self@.last_applied,
    {
        self.last_applied
    }

    /// The term of the last entry of the log, or of the snapshot when the
    /// log after it is empty.
    pub fn last_log_term(&self) -> (t: u64)
        requires
            self@.wf(),
        ensures
            t == self@.last_term(),
    {
        let last = self.last_index();
        self.term_at(last)
    }

    /// The length of the saved Raft state, by which a service decides when to
    /// take a snapshot.
    pub fn raft_state_size(&self) -> (size: usize)
        ensures
            size == self@.persisted.len(),
    {
        self.persister.raft_state().len()
    }
}


impl<P: Persister> Raft<P> {
    /// The persister, holding what the node saved.
    pub fn persister(&self) -> (p: &P)
        ensures
            *p == self.spec_persister(),
            self@.persisted == p.spec_raft_state(),
            self@.snapshot == p.spec_snapshot(),
    {
        &self.persister
    }
}

/// The state of a Raft node as its service sees it.
#[derive(Clone, Copy, Debug)]
pub struct State {
    pub term: u64,
    pub is_leader: bool,
}

impl Default for State {
    fn default() -> (s: State)
        ensures
            s.term == 0,
            !s.is_leader,
    {
        State { term: 0, is_leader: false }
    }
}

impl State {
    /// The node's current term.
    pub fn term(&self) -> (t: u64)
        ensures
            t == self.term,
    {
        self.term
    }

    /// Whether the node believes it leads.
    pub fn is_leader(&self) -> (b: bool)
        ensures
            b == self.is_leader,
    {
        self.is_leader
    }
}

/// The handle through which a service and its driver use a Raft node: the
/// driver feeds it clock ticks and messages and delivers what it sends; a
/// killed node stays silent.
pub struct Node<P: Persister> {
    raft: Raft<P>,
    killed: bool,
}

impl<P: Persister> Node<P> {
    /// The node's state.
    pub closed spec fn raft_view(&self) -> RaftView {
        self.raft@
    }

    /// Whether the node has been killed.
    pub closed spec fn is_killed(&self) -> bool {
        self.killed
    }

    /// The node's persister.
    pub closed spec fn spec_persister(&self) -> P {
        self.raft.spec_persister()
    }

    /// Wraps a Raft node.
    pub fn new(raft: Raft<P>) -> (node: Node<P>)
        requires
            raft@.wf(),
        ensures
            node.raft_view() == raft@,
            !node.is_killed(),
            node.raft_view().wf(),
    {
        Node { raft, killed: false }
    }

    /// Asks the node to replicate a command: see `Raft::start`.
    pub fn start(&mut self, data: Vec<u8>) -> (r: Result<(u64, u64), Error>)
        requires
            old(self).raft_view().wf(),
        ensures
            final(self).raft_view().wf(),
            final(self).is_killed() == old(self).is_killed(),
            match on_start(old(self).raft_view(), data@) {
                Some(s1) => {
                    &&& final(self).raft_view() == saved(s1)
                    &&& r == Ok::<(u64, u64), Error>(
                        (
                            (old(self).raft_view().last_index() + 1) as u64,
                            old(self).raft_view().current_term,
                        ),
                    )
                },
                None => {
                    &&& final(self).raft_view() == old(self).raft_view()
                    &&& r == Err::<(u64, u64), Error>(
                        if old(self).raft_view().role != Role::Leader {
                            Error::NotLeader
                        } else {
                            Error::LogFull
                        },
                    )
                },
            },
    {
        self.raft.start(data)
    }

    /// The node's current term.
    pub fn term(&self) -> (t: u64)
        ensures
            t == self.raft_view().current_term,
    {
        self.raft.term()
    }

    /// Whether the node believes it leads.
    pub fn is_leader(&self) -> (b: bool)
        ensures
            b == (self.raft_view().role == Role::Leader),
    {
        self.raft.is_leader()
    }

    /// The term of the last entry the node holds.
    pub fn last_log_term(&self) -> (t: u64)
        requires
            self.raft_view().wf(),
        ensures
            t == self.raft_view().last_term(),
    {
        self.raft.last_log_term()
    }

    /// Whether the node has been killed.
    pub fn killed(&self) -> (b: bool)
        ensures
            b == self.is_killed(),
    {
        self.killed
    }

    /// The node's term and whether it leads.
    pub fn get_state(&self) -> (st: State)
        ensures
            st.term == self.raft_view().current_term,
            st.is_leader == (self.raft_view().role == Role::Leader),
    {
        State { term: self.term(), is_leader: self.is_leader() }
    }

    /// Stops the node: from now on it ignores ticks and messages.
    pub fn kill(&mut self)
        ensures
            final(self).is_killed(),
            final(self).raft_view() == old(self).raft_view(),
    {
        self.killed = true;
    }

    /// One clock tick: see `Raft::tick`; nothing once killed.
    pub fn tick(&mut self) -> (out: Vec<Envelope>)
        requires
            old(self).raft_view().wf(),
        ensures
            final(self).raft_view().wf(),
            final(self).is_killed() == old(self).is_killed(),
            old(self).is_killed() ==> final(self).raft_view() == old(self).raft_view() && out@.len()
                == 0,
            !old(self).is_killed() ==> final(self).raft_view() == saved(
                on_tick(old(self).raft_view(), final(self).raft_view().election_timeout),
            ) && envelopes_view(out@) == if tick_sends(old(self).raft_view()) {
                broadcast(final(self).raft_view())
            } else {
                Seq::empty()
            },
    {
        if self.killed {
            return Vec::new();
        }
        self.raft.tick()
    }

    /// A message from peer `from`: see `Raft::step`; ignored once killed.
    pub fn step(&mut self, from: usize, msg: Message) -> (out: Vec<Envelope>)
        requires
            old(self).raft_view().wf(),
        ensures
            final(self).raft_view().wf(),
            final(self).is_killed() == old(self).is_killed(),
            old(self).is_killed() ==> final(self).raft_view() == old(self).raft_view() && out@.len()
                == 0,
            !old(self).is_killed() ==> final(self).raft_view() == saved(
                on_message(old(self).raft_view(), from, msg@),
            ) && envelopes_view(out@) == reply_to(old(self).raft_view(), from, msg@),
    {
        if self.killed {
            return Vec::new();
        }
        self.raft.step(from, msg)
    }

    /// What the service is to learn now: see `Raft::take_apply_msgs`.
    pub fn take_apply_msgs(&mut self) -> (msgs: Vec<ApplyMsg>)
        requires
            old(self).raft_view().wf(),
        ensures
            final(self).raft_view().wf(),
            final(self).is_killed() == old(self).is_killed(),
            final(self).raft_view() == after_apply(old(self).raft_view()),
            apply_msgs_view(msgs@) == to_apply(old(self).raft_view()),
    {
        self.raft.take_apply_msgs()
    }

    /// The service switches to a snapshot: see `Raft::cond_install_snapshot`.
    pub fn cond_install_snapshot(
        &mut self,
        last_included_term: u64,
        last_included_index: u64,
        snapshot: &[u8],
    ) -> (installed: bool)
        requires
            old(self).raft_view().wf(),
        ensures
            final(self).raft_view().wf(),
            final(self).is_killed() == old(self).is_killed(),
            installed == may_install(
                old(self).raft_view(),
                last_included_term,
                last_included_index,
            ),
            final(self).raft_view() == saved(
                on_cond_install_snapshot(
                    old(self).raft_view(),
                    last_included_term,
                    last_included_index,
                    snapshot@,
                ),
            ),
    {
        self.raft.cond_install_snapshot(last_included_term, last_included_index, snapshot)
    }

    /// The service took a snapshot up to `index`: see `Raft::snapshot`.
    pub fn snapshot(&mut self, index: u64, snapshot: &[u8])
        requires
            old(self).raft_view().wf(),
        ensures
            final(self).raft_view().wf(),
            final(self).is_killed() == old(self).is_killed(),
            final(self).raft_view() == saved(
                on_snapshot(old(self).raft_view(), index, snapshot@),
            ),
    {
        self.raft.snapshot(index, snapshot)
    }

    /// The length of the saved Raft state.
    pub fn raft_state_size(&self) -> (size: usize)
        ensures
            size == self.raft_view().persisted.len(),
    {
        self.raft.raft_state_size()
    }

    /// The index of the last command handed to the service.
    pub fn last_applied(&self) -> (i: u64)
        ensures
            i == self.raft_view().last_applied,
    {
        self.raft.last_applied()
    }

    /// The node's persister.
    pub fn persister(&self) -> (p: &P)
        ensures
            *p == self.spec_persister(),
            self.raft_view().persisted == p.spec_raft_state(),
            self.raft_view().snapshot == p.spec_snapshot(),
    {
        self.raft.persister()
    }
}

/// Restoring undoes saving: a node started from the Raft state that another
/// node saved, as `Raft::new` starts one, resumes with that node's term,
/// vote, snapshot point and log.
pub proof fn law_restore_undoes_persist<P: Persister, Q: Persister>(
    saver: &Raft<P>,
    restored: &Raft<Q>,
)
    requires
        saver@.wf(),
        restorable(restored@.persistent(), restored@.n),
        state_bytes(restored@.persistent()) == saver@.persisted,
    ensures
        restored@.persistent() == saver@.persistent(),
{
    let ps = saver@.persistent();
    assert(ps.log.len() == saver.log.len());
    assert forall|i: int| 0 <= i < ps.log.len() implies #[trigger] ps.log[i].data.len() <= u64::MAX by {
        assert(ps.log[i] == saver.log@[i]@);
        assert(ps.log[i].data.len() == saver.log@[i].data.len());
    }
    assert(encodable(ps));
    lemma_state_bytes_injective(restored@.persistent(), ps);
}

/// The vote can be written in the saved layout.
pub open spec fn vote_code_fits(v: Option<usize>) -> bool {
    super::codec::vote_code(v) <= u64::MAX
}

} // verus!
