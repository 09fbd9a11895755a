//! The Raft node as a mathematical state machine (Figure 2 of the Raft paper),
//! against which the executable node is proved, and the laws it keeps.
use vstd::prelude::*;
use super::codec::{state_bytes, EntryView, PersistentStateView};
use super::messages::{
    AppendEntriesArgsView, AppendEntriesReply, EnvelopeView, InstallSnapshotArgsView,
    InstallSnapshotReply, MessageView, RequestVoteArgs, RequestVoteReply,
};

verus! {

/// Ticks a follower waits, at least, before it starts an election.
pub const ELECTION_TIMEOUT_MIN: u64 = 10;

/// Ticks a follower waits, at most, before it starts an election.
pub const ELECTION_TIMEOUT_MAX: u64 = 20;

/// Ticks between two rounds of heartbeats from a leader.
pub const HEARTBEAT_INTERVAL: u64 = 3;

/// The role a node plays in its current term.
#[derive(Clone, Copy, PartialEq, Eq, Structural, Debug)]
pub enum Role {
    Follower,
    Candidate,
    Leader,
}

/// A snapshot received from the leader and not yet handed to the service.
pub struct SnapshotView {
    pub term: u64,
    pub index: u64,
    pub data: Seq<u8>,
}

/// What a service learns from its Raft node.
pub enum ApplyMsgView {
    Command { data: Seq<u8>, index: u64 },
    Snapshot { data: Seq<u8>, term: u64, index: u64 },
}

/// The whole state of a Raft node.
pub struct RaftView {
    pub me: usize,
    pub n: usize,
    pub current_term: u64,
    pub voted_for: Option<usize>,
    pub role: Role,
    /// Index and term of the last entry that the snapshot covers.
    pub snapshot_index: u64,
    pub snapshot_term: u64,
    /// The entries after the snapshot: `log[k]` is the entry at index
    /// `snapshot_index + 1 + k`.
    pub log: Seq<EntryView>,
    pub commit_index: u64,
    pub last_applied: u64,
    pub votes: Seq<bool>,
    pub next_index: Seq<u64>,
    pub match_index: Seq<u64>,
    pub election_elapsed: u64,
    pub election_timeout: u64,
    pub heartbeat_elapsed: u64,
    /// The service snapshot kept by the persister.
    pub snapshot: Seq<u8>,
    pub pending_snapshot: Option<SnapshotView>,
    /// The Raft state kept by the persister.
    pub persisted: Seq<u8>,
}

impl RaftView {
    pub open spec fn last_index(self) -> int {
        self.snapshot_index + self.log.len()
    }

    /// The term of the entry at index `i`; 0 where the node knows no entry.
    pub open spec fn term_at(self, i: int) -> u64 {
        if i == self.snapshot_index {
            self.snapshot_term
        } else if self.snapshot_index < i <= self.last_index() {
            self.log[i - self.snapshot_index - 1].term
        } else {
            0
        }
    }

    /// The entry at index `i`, for `snapshot_index < i <= last_index()`.
    pub open spec fn entry_at(self, i: int) -> EntryView {
        self.log[i - self.snapshot_index - 1]
    }

    pub open spec fn last_term(self) -> u64 {
        self.term_at(self.last_index())
    }

    /// The part of the state that a crash must not lose.
    pub open spec fn persistent(self) -> PersistentStateView {
        PersistentStateView {
            current_term: self.current_term,
            voted_for: self.voted_for,
            snapshot_index: self.snapshot_index,
            snapshot_term: self.snapshot_term,
            log: self.log,
        }
    }

    /// Whether a log that ends with `last_log_term`/`last_log_index` is at
    /// least as up to date as this node's.
    pub open spec fn up_to_date(self, last_log_term: u64, last_log_index: u64) -> bool {
        last_log_term > self.last_term() || (last_log_term == self.last_term()
            && last_log_index >= self.last_index())
    }

    /// The invariant of a node.
    pub open spec fn wf(self) -> bool {
        &&& self.structural()
        &&& self.persisted == state_bytes(self.persistent())
    }

    /// The invariant of a node, but for what the persister holds.
    pub open spec fn structural(self) -> bool {
        &&& 1 <= self.n
        &&& self.me < self.n
        &&& self.votes.len() == self.n
        &&& self.next_index.len() == self.n
        &&& self.match_index.len() == self.n
        &&& (self.voted_for matches Some(c) ==> c < self.n)
        &&& self.snapshot_index <= self.last_applied
        &&& self.last_applied <= self.commit_index
        &&& self.commit_index <= self.last_index()
        &&& self.last_index() < u64::MAX - 1
        &&& (self.role == Role::Leader ==> forall|i: int|
            0 <= i < self.n ==> 1 <= #[trigger] self.next_index[i] <= self.last_index() + 1
                && self.match_index[i] <= self.last_index())
        &&& ELECTION_TIMEOUT_MIN <= self.election_timeout <= ELECTION_TIMEOUT_MAX
        &&& self.election_elapsed < self.election_timeout
        &&& self.heartbeat_elapsed <= HEARTBEAT_INTERVAL
        &&& (self.pending_snapshot matches Some(p) ==> p.index < u64::MAX - 1)
    }
}

/// The state with the persister holding its persistent part.
pub open spec fn saved(s: RaftView) -> RaftView {
    RaftView { persisted: state_bytes(s.persistent()), ..s }
}

/// The number of peers below `k` whose log reaches `idx`, as the leader `me`
/// with a log ending at `last` knows from `match_index`.
pub open spec fn count_replicated(
    me: usize,
    last: int,
    match_index: Seq<u64>,
    idx: int,
    k: int,
) -> nat
    decreases k,
{
    if k <= 0 {
        0
    } else {
        let has = if (k - 1) as usize == me {
            idx <= last
        } else {
            match_index[k - 1] >= idx
        };
        count_replicated(me, last, match_index, idx, k - 1) + if has {
            1nat
        } else {
            0nat
        }
    }
}

/// Whether a majority of the peers have the entry at `idx`.
pub open spec fn replicated_on_majority(s: RaftView, idx: int) -> bool {
    2 * count_replicated(s.me, s.last_index(), s.match_index, idx, s.n as int) > s.n
}

/// The number of votes a candidate holds among the first `k` peers.
pub open spec fn count_votes(votes: Seq<bool>, k: int) -> nat
    decreases k,
{
    if k <= 0 {
        0
    } else {
        count_votes(votes, k - 1) + if votes[k - 1] {
            1nat
        } else {
            0nat
        }
    }
}

/// The highest index above the commit index, searching down from `idx`,
/// whose entry is of the current term and held by a majority; the commit
/// index where there is none.
pub open spec fn commit_candidate(s: RaftView, idx: int) -> int
    decreases idx - s.commit_index,
{
    if idx <= s.commit_index {
        s.commit_index as int
    } else if s.term_at(idx) == s.current_term && replicated_on_majority(s, idx) {
        idx
    } else {
        commit_candidate(s, idx - 1)
    }
}

/// The commit point found never moves back and never passes `idx`.
pub proof fn lemma_commit_candidate_bounds(s: RaftView, idx: int)
    ensures
        s.commit_index <= commit_candidate(s, idx),
        commit_candidate(s, idx) <= if idx > s.commit_index {
            idx
        } else {
            s.commit_index as int
        },
        commit_candidate(s, idx) > s.commit_index ==> s.term_at(commit_candidate(s, idx))
            == s.current_term && replicated_on_majority(s, commit_candidate(s, idx)),
    decreases idx - s.commit_index,
{
    if idx > s.commit_index {
        lemma_commit_candidate_bounds(s, idx - 1);
    }
}

/// A leader commits the highest entry of its term that a majority holds.
pub open spec fn advance_commit(s: RaftView) -> RaftView {
    RaftView { commit_index: commit_candidate(s, s.last_index()) as u64, ..s }
}

/// Adopts a higher term as a follower that has not voted in it.
pub open spec fn step_down(s: RaftView, term: u64) -> RaftView {
    RaftView { current_term: term, voted_for: None, role: Role::Follower, ..s }
}

/// Takes the lead: every follower is assumed to hold the whole log until it
/// answers otherwise, and the first heartbeat goes out at the next tick.
pub open spec fn become_leader(s: RaftView) -> RaftView {
    RaftView {
        role: Role::Leader,
        next_index: Seq::new(s.n as nat, |i: int| (s.last_index() + 1) as u64),
        match_index: Seq::new(
            s.n as nat,
            |i: int|
                if i == s.me {
                    s.last_index() as u64
                } else {
                    0u64
                },
        ),
        heartbeat_elapsed: HEARTBEAT_INTERVAL,
        ..s
    }
}

/// Starts an election in the next term, voting for itself.
pub open spec fn start_election(s: RaftView, timeout: u64) -> RaftView {
    let c = RaftView {
        current_term: (s.current_term + 1) as u64,
        voted_for: Some(s.me),
        role: Role::Candidate,
        votes: Seq::new(s.n as nat, |i: int| i == s.me),
        election_elapsed: 0,
        election_timeout: timeout,
        ..s
    };
    if 2 * count_votes(c.votes, c.n as int) > c.n {
        become_leader(c)
    } else {
        c
    }
}

/// One tick of the clock; `timeout` is the election timeout drawn in case
/// an election starts.
pub open spec fn on_tick(s: RaftView, timeout: u64) -> RaftView {
    if s.role == Role::Leader {
        if s.heartbeat_elapsed + 1 >= HEARTBEAT_INTERVAL {
            RaftView { heartbeat_elapsed: 0, ..s }
        } else {
            RaftView { heartbeat_elapsed: (s.heartbeat_elapsed + 1) as u64, ..s }
        }
    } else if s.election_elapsed + 1 >= s.election_timeout && s.current_term < u64::MAX {
        start_election(s, timeout)
    } else if s.election_elapsed + 1 >= s.election_timeout {
        s
    } else {
        RaftView { election_elapsed: (s.election_elapsed + 1) as u64, ..s }
    }
}

/// Whether a tick makes the node send messages: a leader's heartbeat or a
/// candidate's vote requests.
pub open spec fn tick_sends(s: RaftView) -> bool {
    if s.role == Role::Leader {
        s.heartbeat_elapsed + 1 >= HEARTBEAT_INTERVAL
    } else {
        s.election_elapsed + 1 >= s.election_timeout && s.current_term < u64::MAX
    }
}

/// The peers other than `me`, in order.
pub open spec fn other_peers(n: usize, me: usize) -> Seq<usize> {
    Seq::new(
        (n - 1) as nat,
        |k: int|
            if k < me {
                k as usize
            } else {
                (k + 1) as usize
            },
    )
}

/// What a leader sends to peer `i`: its snapshot when the peer needs entries
/// the log no longer holds, else the entries from the peer's next index.
pub open spec fn leader_message(s: RaftView, i: int) -> MessageView {
    let next = s.next_index[i];
    if next <= s.snapshot_index {
        MessageView::InstallSnapshot(
            InstallSnapshotArgsView {
                term: s.current_term,
                leader_id: s.me,
                last_included_index: s.snapshot_index,
                last_included_term: s.snapshot_term,
                data: s.snapshot,
            },
        )
    } else {
        MessageView::AppendEntries(
            AppendEntriesArgsView {
                term: s.current_term,
                leader_id: s.me,
                prev_log_index: (next - 1) as u64,
                prev_log_term: s.term_at(next - 1),
                entries: s.log.skip(next - 1 - s.snapshot_index),
                leader_commit: s.commit_index,
            },
        )
    }
}

/// The vote request of a candidate.
pub open spec fn vote_request(s: RaftView) -> MessageView {
    MessageView::RequestVote(
        RequestVoteArgs {
            term: s.current_term,
            candidate_id: s.me,
            last_log_index: s.last_index() as u64,
            last_log_term: s.last_term(),
        },
    )
}

/// The messages a node sends on a tick that makes it send, one to every
/// other peer.
pub open spec fn broadcast(s: RaftView) -> Seq<EnvelopeView> {
    let peers = other_peers(s.n, s.me);
    Seq::new(
        peers.len(),
        |k: int|
            EnvelopeView {
                to: peers[k],
                msg: if s.role == Role::Leader {
                    leader_message(s, peers[k] as int)
                } else {
                    vote_request(s)
                },
            },
    )
}

/// Handles a vote request.
pub open spec fn on_request_vote(s: RaftView, a: RequestVoteArgs) -> (RaftView, RequestVoteReply) {
    let s1 = if a.term > s.current_term {
        step_down(s, a.term)
    } else {
        s
    };
    let grant = a.term == s1.current_term && a.candidate_id < s.n && (s1.voted_for is None
        || s1.voted_for == Some(a.candidate_id)) && s1.up_to_date(
        a.last_log_term,
        a.last_log_index,
    );
    let s2 = if grant {
        RaftView { voted_for: Some(a.candidate_id), election_elapsed: 0, ..s1 }
    } else {
        s1
    };
    (s2, RequestVoteReply { term: s2.current_term, vote_granted: grant })
}

/// Handles the answer to a vote request from peer `from`.
pub open spec fn on_request_vote_reply(s: RaftView, from: usize, r: RequestVoteReply) -> RaftView {
    if r.term > s.current_term {
        step_down(s, r.term)
    } else if s.role == Role::Candidate && r.term == s.current_term && r.vote_granted && from
        < s.n {
        let s1 = RaftView { votes: s.votes.update(from as int, true), ..s };
        if 2 * count_votes(s1.votes, s1.n as int) > s1.n {
            become_leader(s1)
        } else {
            s1
        }
    } else {
        s
    }
}

/// The offset, counted from the first entry sent, of the first entry that the
/// follower must write: neither committed nor already present with the same
/// term. The number of entries when there is none.
pub open spec fn first_new_entry(s: RaftView, prev: int, entries: Seq<EntryView>, k: int) -> int
    decreases entries.len() - k,
{
    if k >= entries.len() {
        entries.len() as int
    } else {
        let idx = prev + 1 + k;
        if idx <= s.commit_index || (idx <= s.last_index() && s.term_at(idx)
            == entries[k].term) {
            first_new_entry(s, prev, entries, k + 1)
        } else {
            k
        }
    }
}

/// Where the first entry to write falls: past the commit index and at most
/// one past the end of the log; when there is none, the entries end within
/// the log.
pub proof fn lemma_first_new_entry_bounds(s: RaftView, prev: int, entries: Seq<EntryView>, k: int)
    requires
        0 <= k <= entries.len(),
        prev + k <= s.last_index(),
        s.commit_index <= s.last_index(),
    ensures
        k <= first_new_entry(s, prev, entries, k) <= entries.len(),
        first_new_entry(s, prev, entries, k) < entries.len() ==> prev + 1 + first_new_entry(
            s,
            prev,
            entries,
            k,
        ) > s.commit_index && prev + first_new_entry(s, prev, entries, k) <= s.last_index(),
        first_new_entry(s, prev, entries, k) == entries.len() ==> prev + entries.len()
            <= s.last_index(),
    decreases entries.len() - k,
{
    if k < entries.len() {
        let idx = prev + 1 + k;
        if idx <= s.commit_index || (idx <= s.last_index() && s.term_at(idx) == entries[k].term) {
            lemma_first_new_entry_bounds(s, prev, entries, k + 1);
        }
    }
}

/// The log after a matching append: conflicting entries and all that follow
/// them are replaced by the new entries.
pub open spec fn merged_log(s: RaftView, prev: int, entries: Seq<EntryView>) -> Seq<EntryView> {
    let k = first_new_entry(s, prev, entries, 0);
    if k == entries.len() {
        s.log
    } else {
        s.log.take(prev + k - s.snapshot_index) + entries.skip(k)
    }
}

/// Handles an append request.
pub open spec fn on_append_entries(s: RaftView, a: AppendEntriesArgsView) -> (
    RaftView,
    AppendEntriesReply,
) {
    if a.term < s.current_term {
        (
            s,
            AppendEntriesReply {
                term: s.current_term,
                success: false,
                match_index: 0,
                conflict_index: 0,
            },
        )
    } else {
        let s1 = RaftView {
            current_term: a.term,
            voted_for: if a.term > s.current_term {
                None
            } else {
                s.voted_for
            },
            role: Role::Follower,
            election_elapsed: 0,
            ..s
        };
        let fail = AppendEntriesReply {
            term: a.term,
            success: false,
            match_index: 0,
            conflict_index: (s1.commit_index + 1) as u64,
        };
        let last_new = a.prev_log_index + a.entries.len();
        if a.prev_log_index > s1.last_index() || last_new >= u64::MAX - 1 {
            (s1, fail)
        } else if a.prev_log_index > s1.commit_index && s1.term_at(a.prev_log_index as int)
            != a.prev_log_term {
            (s1, fail)
        } else {
            let log = merged_log(s1, a.prev_log_index as int, a.entries);
            let commit = if a.leader_commit > s1.commit_index && a.leader_commit <= last_new {
                a.leader_commit
            } else if a.leader_commit > s1.commit_index && last_new > s1.commit_index {
                last_new as u64
            } else {
                s1.commit_index
            };
            (
                RaftView { log, commit_index: commit, ..s1 },
                AppendEntriesReply {
                    term: a.term,
                    success: true,
                    match_index: last_new as u64,
                    conflict_index: 0,
                },
            )
        }
    }
}

/// Handles the answer of peer `from` to an append request.
pub open spec fn on_append_entries_reply(s: RaftView, from: usize, r: AppendEntriesReply) -> RaftView {
    if r.term > s.current_term {
        step_down(s, r.term)
    } else if s.role == Role::Leader && r.term == s.current_term && from < s.n && from != s.me {
        if r.success {
            let m = if r.match_index <= s.last_index() {
                r.match_index
            } else {
                s.last_index() as u64
            };
            let new_match = if m > s.match_index[from as int] {
                m
            } else {
                s.match_index[from as int]
            };
            let s1 = RaftView {
                match_index: s.match_index.update(from as int, new_match),
                next_index: s.next_index.update(from as int, (new_match + 1) as u64),
                ..s
            };
            advance_commit(s1)
        } else {
            let c = if r.conflict_index > s.last_index() + 1 {
                (s.last_index() + 1) as u64
            } else {
                r.conflict_index
            };
            let floor = s.match_index[from as int] + 1;
            let next = if c < floor {
                floor as u64
            } else {
                c
            };
            RaftView { next_index: s.next_index.update(from as int, next), ..s }
        }
    } else {
        s
    }
}

/// Handles a snapshot from the leader: a snapshot newer than what the node
/// has committed waits for the service.
pub open spec fn on_install_snapshot(s: RaftView, a: InstallSnapshotArgsView) -> (
    RaftView,
    InstallSnapshotReply,
) {
    if a.term < s.current_term {
        (
            s,
            InstallSnapshotReply {
                term: s.current_term,
                last_included_index: a.last_included_index,
            },
        )
    } else {
        let s1 = RaftView {
            current_term: a.term,
            voted_for: if a.term > s.current_term {
                None
            } else {
                s.voted_for
            },
            role: Role::Follower,
            election_elapsed: 0,
            ..s
        };
        let s2 = if a.last_included_index > s1.commit_index && a.last_included_index < u64::MAX
            - 1 {
            RaftView {
                pending_snapshot: Some(
                    SnapshotView {
                        term: a.last_included_term,
                        index: a.last_included_index,
                        data: a.data,
                    },
                ),
                ..s1
            }
        } else {
            s1
        };
        (s2, InstallSnapshotReply { term: a.term, last_included_index: a.last_included_index })
    }
}

/// Handles the answer of peer `from` to a snapshot.
pub open spec fn on_install_snapshot_reply(s: RaftView, from: usize, r: InstallSnapshotReply) -> RaftView {
    if r.term > s.current_term {
        step_down(s, r.term)
    } else if s.role == Role::Leader && r.term == s.current_term && from < s.n && from != s.me {
        let m = if r.last_included_index <= s.last_index() {
            r.last_included_index
        } else {
            s.last_index() as u64
        };
        let new_match = if m > s.match_index[from as int] {
            m
        } else {
            s.match_index[from as int]
        };
        let old_next = s.next_index[from as int];
        let next = if old_next > new_match + 1 {
            old_next
        } else {
            (new_match + 1) as u64
        };
        advance_commit(
            RaftView {
                match_index: s.match_index.update(from as int, new_match),
                next_index: s.next_index.update(from as int, next),
                ..s
            },
        )
    } else {
        s
    }
}

/// The node's state after a message from peer `from`.
pub open spec fn on_message(s: RaftView, from: usize, m: MessageView) -> RaftView {
    match m {
        MessageView::RequestVote(a) => on_request_vote(s, a).0,
        MessageView::RequestVoteReply(r) => on_request_vote_reply(s, from, r),
        MessageView::AppendEntries(a) => on_append_entries(s, a).0,
        MessageView::AppendEntriesReply(r) => on_append_entries_reply(s, from, r),
        MessageView::InstallSnapshot(a) => on_install_snapshot(s, a).0,
        MessageView::InstallSnapshotReply(r) => on_install_snapshot_reply(s, from, r),
    }
}

/// The answer, if any, to a message from peer `from`.
pub open spec fn reply_to(s: RaftView, from: usize, m: MessageView) -> Seq<EnvelopeView> {
    match m {
        MessageView::RequestVote(a) => seq![
            EnvelopeView { to: from, msg: MessageView::RequestVoteReply(on_request_vote(s, a).1) },
        ],
        MessageView::AppendEntries(a) => seq![
            EnvelopeView {
                to: from,
                msg: MessageView::AppendEntriesReply(on_append_entries(s, a).1),
            },
        ],
        MessageView::InstallSnapshot(a) => seq![
            EnvelopeView {
                to: from,
                msg: MessageView::InstallSnapshotReply(on_install_snapshot(s, a).1),
            },
        ],
        _ => Seq::empty(),
    }
}

/// A leader appends a command of its term; anyone else refuses.
pub open spec fn on_start(s: RaftView, data: Seq<u8>) -> Option<RaftView> {
    if s.role == Role::Leader && s.last_index() + 1 < u64::MAX - 1 {
        let s1 = RaftView {
            log: s.log.push(EntryView { term: s.current_term, data }),
            match_index: s.match_index.update(s.me as int, (s.last_index() + 1) as u64),
            ..s
        };
        Some(advance_commit(s1))
    } else {
        None
    }
}

/// The service has a snapshot of everything up to `index`: the log before it
/// is dropped. Ignored unless `index` is applied and beyond the snapshot.
pub open spec fn on_snapshot(s: RaftView, index: u64, data: Seq<u8>) -> RaftView {
    if index <= s.snapshot_index || index > s.last_applied {
        s
    } else {
        RaftView {
            snapshot_index: index,
            snapshot_term: s.term_at(index as int),
            log: s.log.skip(index - s.snapshot_index),
            snapshot: data,
            ..s
        }
    }
}

/// Whether the service may switch to a snapshot: only when the node has not
/// committed that far, and not while it leads.
pub open spec fn may_install(s: RaftView, term: u64, index: u64) -> bool {
    index > s.commit_index && index < u64::MAX - 1 && s.role != Role::Leader
}

/// The node's state after the service switched to a snapshot.
pub open spec fn on_cond_install_snapshot(s: RaftView, term: u64, index: u64, data: Seq<u8>) -> RaftView {
    if !may_install(s, term, index) {
        s
    } else {
        let log = if index < s.last_index() && s.term_at(index as int) == term {
            s.log.skip(index - s.snapshot_index)
        } else {
            Seq::empty()
        };
        RaftView {
            snapshot_index: index,
            snapshot_term: term,
            log,
            commit_index: index,
            last_applied: index,
            snapshot: data,
            pending_snapshot: None,
            ..s
        }
    }
}

/// The commands the service has not applied yet, in log order.
pub open spec fn commands_to_apply(s: RaftView) -> Seq<ApplyMsgView> {
    Seq::new(
        (s.commit_index - s.last_applied) as nat,
        |k: int|
            ApplyMsgView::Command {
                data: s.entry_at(s.last_applied + 1 + k).data,
                index: (s.last_applied + 1 + k) as u64,
            },
    )
}

/// Everything the service is to learn now: the new commands, then a waiting
/// snapshot.
pub open spec fn to_apply(s: RaftView) -> Seq<ApplyMsgView> {
    match s.pending_snapshot {
        None => commands_to_apply(s),
        Some(p) => commands_to_apply(s).push(
            ApplyMsgView::Snapshot { data: p.data, term: p.term, index: p.index },
        ),
    }
}

/// The node after handing everything to the service.
pub open spec fn after_apply(s: RaftView) -> RaftView {
    RaftView { last_applied: s.commit_index, pending_snapshot: None, ..s }
}

} // verus!
