//! Laws of Raft, proved over the state machine of `spec`: those of a single
//! node, and the quorum argument behind one leader per term.
use vstd::prelude::*;
use super::codec::EntryView;
use super::messages::{AppendEntriesArgsView, MessageView, RequestVoteArgs};
use super::spec::{
    count_votes, first_new_entry, lemma_commit_candidate_bounds, on_request_vote, lemma_first_new_entry_bounds, merged_log, on_append_entries,
    on_cond_install_snapshot, on_message, on_snapshot, on_start, on_tick,
    replicated_on_majority, RaftView, Role,
};

verus! {

/// The commit index of `t` is at least that of `s`, and every entry that `s`
/// had committed and `t` still holds in its log is unchanged.
pub open spec fn keeps_committed(s: RaftView, t: RaftView) -> bool {
    &&& t.commit_index >= s.commit_index
    &&& forall|i: int|
        t.snapshot_index < i <= s.commit_index ==> #[trigger] t.entry_at(i) == s.entry_at(i)
}

/// The log of `t` extends the log of `s`: nothing `s` held past `t`'s
/// snapshot was changed or removed.
pub open spec fn extends_log(s: RaftView, t: RaftView) -> bool {
    &&& t.last_index() >= s.last_index()
    &&& forall|i: int|
        t.snapshot_index < i <= s.last_index() && s.snapshot_index < i ==> #[trigger] t.entry_at(
            i,
        ) == s.entry_at(i)
}

/// A node's term never goes down: not on a message, not on a tick.
pub proof fn law_term_never_decreases(s: RaftView, from: usize, m: MessageView, timeout: u64)
    requires
        s.wf(),
    ensures
        on_message(s, from, m).current_term >= s.current_term,
        on_tick(s, timeout).current_term >= s.current_term,
{
}

/// A node votes at most once in a term: while the term stays, a vote cast
/// stays cast for the same candidate.
pub proof fn law_one_vote_per_term(s: RaftView, from: usize, m: MessageView, timeout: u64)
    requires
        s.wf(),
        s.voted_for is Some,
    ensures
        on_message(s, from, m).current_term == s.current_term ==> on_message(s, from, m).voted_for
            == s.voted_for,
        on_tick(s, timeout).current_term == s.current_term ==> on_tick(s, timeout).voted_for
            == s.voted_for,
{
}

proof fn lemma_append_keeps_committed(s: RaftView, m: MessageView)
    requires
        s.wf(),
        m is AppendEntries,
    ensures
        keeps_committed(s, on_append_entries(s, m->AppendEntries_0).0),
{
    let a = m->AppendEntries_0;
    let t = on_append_entries(s, a).0;
    if a.term >= s.current_term {
        let last_new = a.prev_log_index + a.entries.len();
        if !(a.prev_log_index > s.last_index() || last_new >= u64::MAX - 1) && !(a.prev_log_index
            > s.commit_index && s.term_at(a.prev_log_index as int) != a.prev_log_term) {
            let s1 = RaftView {
                current_term: a.term,
                voted_for: if a.term > s.current_term {
                    None
                } else {
                    s.voted_for
                },
                role: Role::Follower,
                election_elapsed: 0,
                ..s
            };
            lemma_first_new_entry_bounds(s1, a.prev_log_index as int, a.entries, 0);
            assert forall|i: int| t.snapshot_index < i <= s.commit_index implies #[trigger] t.entry_at(
                i,
            ) == s.entry_at(i) by {
                assert(t.log[i - s.snapshot_index - 1] == s.log[i - s.snapshot_index - 1]);
            }
        }
    }
}

/// Every entry sent before the first one a follower must write is committed
/// there or already held with the leader's term.
proof fn lemma_before_first_new_entry(
    s: RaftView,
    prev: int,
    entries: Seq<EntryView>,
    k: int,
    j: int,
)
    requires
        0 <= k <= j < first_new_entry(s, prev, entries, k),
    ensures
        j < entries.len(),
        prev + 1 + j <= s.commit_index || (prev + 1 + j <= s.last_index() && s.term_at(
            prev + 1 + j,
        ) == entries[j].term),
    decreases j - k,
{
    if k < j {
        lemma_before_first_new_entry(s, prev, entries, k + 1, j);
    }
}

/// An append that a follower accepts leaves it holding what the leader sent.
/// Its log reaches the index it answers with; past its commit point, the
/// entry before those sent has the term the leader gave, every entry sent
/// stands at its index with the leader's term, and every one the follower
/// did not already hold with that term is the leader's entry itself.
pub proof fn law_accepted_append_held(s: RaftView, a: AppendEntriesArgsView)
    requires
        s.wf(),
        on_append_entries(s, a).1.success,
    ensures
        ({
            let (t, r) = on_append_entries(s, a);
            let prev = a.prev_log_index as int;
            &&& r.match_index == prev + a.entries.len()
            &&& t.last_index() >= r.match_index
            &&& prev > s.commit_index ==> t.term_at(prev) == a.prev_log_term
            &&& forall|k: int|
                0 <= k < a.entries.len() && prev + 1 + k > s.commit_index ==> #[trigger] t.term_at(
                    prev + 1 + k,
                ) == a.entries[k].term
            &&& forall|k: int|
                0 <= k < a.entries.len() && prev + 1 + k > s.commit_index && !(prev + 1 + k
                    <= s.last_index() && s.term_at(prev + 1 + k) == a.entries[k].term)
                    ==> #[trigger] t.entry_at(prev + 1 + k) == a.entries[k]
        }),
{
    let prev = a.prev_log_index as int;
    let s1 = RaftView {
        current_term: a.term,
        voted_for: if a.term > s.current_term {
            None
        } else {
            s.voted_for
        },
        role: Role::Follower,
        election_elapsed: 0,
        ..s
    };
    let t = on_append_entries(s, a).0;
    let f = first_new_entry(s1, prev, a.entries, 0);
    lemma_first_new_entry_bounds(s1, prev, a.entries, 0);
    assert(t.log == merged_log(s1, prev, a.entries));
    assert forall|k: int|
        0 <= k < a.entries.len() && prev + 1 + k > s.commit_index implies #[trigger] t.term_at(
            prev + 1 + k,
        ) == a.entries[k].term by {
        if k < f {
            lemma_before_first_new_entry(s1, prev, a.entries, 0, k);
            assert(t.log[prev + 1 + k - s.snapshot_index - 1] == s.log[prev + 1 + k
                - s.snapshot_index - 1]);
        } else {
            assert(t.log[prev + 1 + k - s.snapshot_index - 1] == a.entries[k]);
        }
    }
    assert forall|k: int|
        0 <= k < a.entries.len() && prev + 1 + k > s.commit_index && !(prev + 1 + k
            <= s.last_index() && s.term_at(prev + 1 + k) == a.entries[k].term) implies #[trigger] t.entry_at(
        prev + 1 + k,
    ) == a.entries[k] by {
        if k < f {
            lemma_before_first_new_entry(s1, prev, a.entries, 0, k);
        }
        assert(t.log[prev + 1 + k - s.snapshot_index - 1] == a.entries[k]);
    }
    if prev > s.commit_index {
        assert(t.log[prev - s.snapshot_index - 1] == s.log[prev - s.snapshot_index - 1]);
    }
}

/// Committed entries are never rewritten: after any message, tick, command,
/// snapshot or snapshot switch, the commit index has not gone down and every
/// committed entry still in the log is as it was.
pub proof fn law_committed_entries_stable(
    s: RaftView,
    from: usize,
    m: MessageView,
    timeout: u64,
    data: Seq<u8>,
    index: u64,
    term: u64,
)
    requires
        s.wf(),
    ensures
        keeps_committed(s, on_message(s, from, m)),
        keeps_committed(s, on_tick(s, timeout)),
        on_start(s, data) matches Some(t) ==> keeps_committed(s, t),
        keeps_committed(s, on_snapshot(s, index, data)),
        keeps_committed(s, on_cond_install_snapshot(s, term, index, data)),
{
    lemma_commit_candidate_bounds(s, s.last_index());
    match m {
        MessageView::AppendEntries(a) => {
            lemma_append_keeps_committed(s, m);
        },
        MessageView::AppendEntriesReply(r) => {
            reveal_commit_bounds_for_leader(s, from, m);
        },
        MessageView::InstallSnapshotReply(r) => {
            reveal_commit_bounds_for_leader(s, from, m);
        },
        _ => {},
    }
    if s.role == Role::Leader && s.last_index() + 1 < u64::MAX - 1 {
        let s0 = RaftView {
            log: s.log.push(EntryView { term: s.current_term, data }),
            match_index: s.match_index.update(s.me as int, (s.last_index() + 1) as u64),
            ..s
        };
        lemma_commit_candidate_bounds(s0, s0.last_index());
        assert forall|i: int| s.snapshot_index < i <= s.commit_index implies #[trigger] s0.entry_at(
            i,
        ) == s.entry_at(i) by {
            assert(s0.log[i - s.snapshot_index - 1] == s.log[i - s.snapshot_index - 1]);
        }
    }
    let t = on_snapshot(s, index, data);
    if !(index <= s.snapshot_index || index > s.last_applied) {
        assert forall|i: int| t.snapshot_index < i <= s.commit_index implies #[trigger] t.entry_at(
            i,
        ) == s.entry_at(i) by {
            assert(t.log[i - t.snapshot_index - 1] == s.log[i - s.snapshot_index - 1]);
        }
    }
}

proof fn reveal_commit_bounds_for_leader(s: RaftView, from: usize, m: MessageView)
    requires
        s.wf(),
        m is AppendEntriesReply || m is InstallSnapshotReply,
    ensures
        keeps_committed(s, on_message(s, from, m)),
{
    let t = on_message(s, from, m);
    if s.role == Role::Leader && from < s.n && from != s.me {
        match m {
            MessageView::AppendEntriesReply(r) => {
                if r.term == s.current_term && r.success {
                    let m0 = if r.match_index <= s.last_index() {
                        r.match_index
                    } else {
                        s.last_index() as u64
                    };
                    let nm = if m0 > s.match_index[from as int] {
                        m0
                    } else {
                        s.match_index[from as int]
                    };
                    let s1 = RaftView {
                        match_index: s.match_index.update(from as int, nm),
                        next_index: s.next_index.update(from as int, (nm + 1) as u64),
                        ..s
                    };
                    lemma_commit_candidate_bounds(s1, s1.last_index());
                }
            },
            MessageView::InstallSnapshotReply(r) => {
                if r.term == s.current_term {
                    let m0 = if r.last_included_index <= s.last_index() {
                        r.last_included_index
                    } else {
                        s.last_index() as u64
                    };
                    let nm = if m0 > s.match_index[from as int] {
                        m0
                    } else {
                        s.match_index[from as int]
                    };
                    let old_next = s.next_index[from as int];
                    let next = if old_next > nm + 1 {
                        old_next
                    } else {
                        (nm + 1) as u64
                    };
                    let s1 = RaftView {
                        match_index: s.match_index.update(from as int, nm),
                        next_index: s.next_index.update(from as int, next),
                        ..s
                    };
                    lemma_commit_candidate_bounds(s1, s1.last_index());
                }
            },
            _ => {},
        }
    }
}

/// A leader commits only an entry of its own term that a majority of the
/// peers hold: whenever a message or a new command moves its commit index
/// while it stays leader, the entry there is of its current term and is
/// replicated on a majority.
pub proof fn law_leader_commit_rule(s: RaftView, from: usize, m: MessageView, data: Seq<u8>)
    requires
        s.wf(),
        s.role == Role::Leader,
    ensures
        ({
            let t = on_message(s, from, m);
            t.role == Role::Leader && t.commit_index > s.commit_index ==> t.term_at(
                t.commit_index as int,
            ) == t.current_term && replicated_on_majority(t, t.commit_index as int)
        }),
        on_start(s, data) matches Some(t) ==> (t.commit_index > s.commit_index ==> t.term_at(
            t.commit_index as int,
        ) == t.current_term && replicated_on_majority(t, t.commit_index as int)),
{
    match m {
        MessageView::AppendEntriesReply(r) => {
            reveal_commit_bounds_for_leader(s, from, m);
            if from < s.n && from != s.me && r.term == s.current_term && r.success {
                let m0 = if r.match_index <= s.last_index() {
                    r.match_index
                } else {
                    s.last_index() as u64
                };
                let nm = if m0 > s.match_index[from as int] {
                    m0
                } else {
                    s.match_index[from as int]
                };
                let s1 = RaftView {
                    match_index: s.match_index.update(from as int, nm),
                    next_index: s.next_index.update(from as int, (nm + 1) as u64),
                    ..s
                };
                lemma_commit_candidate_bounds(s1, s1.last_index());
            }
        },
        MessageView::InstallSnapshotReply(r) => {
            if from < s.n && from != s.me && r.term == s.current_term {
                let m0 = if r.last_included_index <= s.last_index() {
                    r.last_included_index
                } else {
                    s.last_index() as u64
                };
                let nm = if m0 > s.match_index[from as int] {
                    m0
                } else {
                    s.match_index[from as int]
                };
                let old_next = s.next_index[from as int];
                let next = if old_next > nm + 1 {
                    old_next
                } else {
                    (nm + 1) as u64
                };
                let s1 = RaftView {
                    match_index: s.match_index.update(from as int, nm),
                    next_index: s.next_index.update(from as int, next),
                    ..s
                };
                lemma_commit_candidate_bounds(s1, s1.last_index());
            }
        },
        _ => {},
    }
    if s.last_index() + 1 < u64::MAX - 1 {
        let s0 = RaftView {
            log: s.log.push(EntryView { term: s.current_term, data }),
            match_index: s.match_index.update(s.me as int, (s.last_index() + 1) as u64),
            ..s
        };
        lemma_commit_candidate_bounds(s0, s0.last_index());
    }
}

/// While a node leads in one term it only appends to its log: after any
/// message, tick or command that leaves it leader of the same term, every
/// entry it held is still there, unchanged.
pub proof fn law_leader_append_only(
    s: RaftView,
    from: usize,
    m: MessageView,
    timeout: u64,
    data: Seq<u8>,
)
    requires
        s.wf(),
        s.role == Role::Leader,
    ensures
        ({
            let t = on_message(s, from, m);
            t.role == Role::Leader && t.current_term == s.current_term ==> extends_log(s, t)
        }),
        extends_log(s, on_tick(s, timeout)),
        on_start(s, data) matches Some(t) ==> extends_log(s, t),
{
    if s.last_index() + 1 < u64::MAX - 1 {
        let t = on_start(s, data)->0;
        assert forall|i: int|
            t.snapshot_index < i <= s.last_index() && s.snapshot_index < i implies #[trigger] t.entry_at(
            i,
        ) == s.entry_at(i) by {
            assert(t.log[i - s.snapshot_index - 1] == s.log[i - s.snapshot_index - 1]);
        }
    }
}

proof fn lemma_disjoint_votes(a: Seq<bool>, b: Seq<bool>, k: int)
    requires
        0 <= k <= a.len(),
        k <= b.len(),
        forall|i: int| 0 <= i < k ==> !(#[trigger] a[i] && b[i]),
    ensures
        count_votes(a, k) + count_votes(b, k) <= k,
    decreases k,
{
    if k > 0 {
        lemma_disjoint_votes(a, b, k - 1);
    }
}

/// Two majorities of the same `n` peers share a peer.
pub proof fn law_majorities_intersect(n: int, a: Seq<bool>, b: Seq<bool>)
    requires
        a.len() == n,
        b.len() == n,
        2 * count_votes(a, n) > n,
        2 * count_votes(b, n) > n,
    ensures
        exists|i: int| 0 <= i < n && #[trigger] a[i] && b[i],
{
    if !exists|i: int| 0 <= i < n && #[trigger] a[i] && b[i] {
        lemma_disjoint_votes(a, b, n);
    }
}

/// At most one candidate wins a term. Candidates `x` and `y` each hold the
/// votes of a majority of the `n` peers in one term; `vote[i]` is whom peer
/// `i` voted for in that term, and a peer grants its vote only to the
/// candidate it voted for, which stays fixed within the term (see
/// `law_one_vote_per_term`). Then `x` and `y` are the same peer.
pub proof fn law_one_winner_per_term(
    n: int,
    x: usize,
    votes_x: Seq<bool>,
    y: usize,
    votes_y: Seq<bool>,
    vote: Seq<Option<usize>>,
)
    requires
        votes_x.len() == n,
        votes_y.len() == n,
        vote.len() == n,
        2 * count_votes(votes_x, n) > n,
        2 * count_votes(votes_y, n) > n,
        forall|i: int| 0 <= i < n && #[trigger] votes_x[i] ==> vote[i] == Some(x),
        forall|i: int| 0 <= i < n && #[trigger] votes_y[i] ==> vote[i] == Some(y),
    ensures
        x == y,
{
    law_majorities_intersect(n, votes_x, votes_y);
    let i = choose|i: int| 0 <= i < n && #[trigger] votes_x[i] && votes_y[i];
    assert(vote[i] == Some(x));
    assert(vote[i] == Some(y));
}

/// A peer grants a vote only in the candidate's term and only to the
/// candidate it then has voted for: the hypothesis that
/// `law_one_winner_per_term` places on each granted vote.
pub proof fn law_vote_granted_is_recorded(s: RaftView, a: RequestVoteArgs)
    requires
        s.wf(),
    ensures
        on_request_vote(s, a).1.vote_granted ==> {
            &&& on_request_vote(s, a).0.current_term == a.term
            &&& on_request_vote(s, a).0.voted_for == Some(a.candidate_id)
            &&& on_request_vote(s, a).1.term == a.term
        },
{
}

} // verus!
