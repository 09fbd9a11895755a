//! A whole Raft cluster as one state machine: the nodes, the messages in
//! flight, and a ghost record of every vote cast. Over it, the election
//! safety of Raft: in no term do two nodes lead.
use vstd::prelude::*;
use super::laws::law_majorities_intersect;
use super::messages::{EnvelopeView, MessageView};
use super::spec::{
    after_apply, broadcast, count_votes, on_cond_install_snapshot, on_message, on_snapshot,
    on_start, on_tick, reply_to, saved, tick_sends, RaftView, Role,
};

verus! {

/// A message in flight from peer `from` to peer `to`.
pub struct Packet {
    pub from: usize,
    pub to: usize,
    pub msg: MessageView,
}

/// The state of a cluster: node `i` is `nodes[i]`; `network` holds every
/// message ever sent, each of which may be delivered any number of times,
/// in any order, or never; `voted[(i, t)]` is whom peer `i` voted for in
/// term `t`, for every vote ever cast; `leaders[t]` is the node that led in
/// term `t`, with the votes it won, for every term in which one led.
pub struct ClusterView {
    pub nodes: Seq<RaftView>,
    pub network: Set<Packet>,
    pub voted: Map<(int, int), int>,
    pub leaders: Map<int, (int, Seq<bool>)>,
}

/// The packets that peer `from` sends when it hands out `envs`.
pub open spec fn sent(from: usize, envs: Seq<EnvelopeView>) -> Set<Packet> {
    Set::new(
        |p: Packet|
            exists|k: int|
                0 <= k < envs.len() && p == (Packet { from, to: envs[k].to, msg: envs[k].msg }),
    )
}

/// The vote record once node `i` is in state `t`: its current vote, if
/// any, is recorded for its current term.
pub open spec fn record_vote(voted: Map<(int, int), int>, i: int, t: RaftView) -> Map<
    (int, int),
    int,
> {
    match t.voted_for {
        Some(c) => voted.insert((i, t.current_term as int), c as int),
        None => voted,
    }
}

/// The record of leaders once node `i` is in state `t`: if it leads, it is
/// recorded as the leader of its term, with its votes.
pub open spec fn record_leader(leaders: Map<int, (int, Seq<bool>)>, i: int, t: RaftView) -> Map<
    int,
    (int, Seq<bool>),
> {
    if t.role == Role::Leader {
        leaders.insert(t.current_term as int, (i, t.votes))
    } else {
        leaders
    }
}

/// Node `i` moves to state `t`, sending `out`.
pub open spec fn node_moves(c: ClusterView, i: int, t: RaftView, out: Set<Packet>) -> ClusterView {
    ClusterView {
        nodes: c.nodes.update(i, t),
        network: c.network.union(out),
        voted: record_vote(c.voted, i, t),
        leaders: record_leader(c.leaders, i, t),
    }
}

/// The cluster where `n` nodes start from scratch.
pub open spec fn initial_cluster(c: ClusterView) -> bool {
    &&& c.nodes.len() > 0
    &&& forall|i: int|
        0 <= i < c.nodes.len() ==> {
            &&& (#[trigger] c.nodes[i]).me == i
            &&& c.nodes[i].n == c.nodes.len()
            &&& c.nodes[i].votes.len() == c.nodes.len()
            &&& c.nodes[i].voted_for is None
            &&& c.nodes[i].role == Role::Follower
        }
    &&& c.network.is_empty()
    &&& c.voted.is_empty()
    &&& c.leaders.is_empty()
}

/// The cluster after node `p.to` handles the packet `p` and answers.
pub open spec fn deliver_step(c: ClusterView, p: Packet) -> ClusterView {
    node_moves(
        c,
        p.to as int,
        saved(on_message(c.nodes[p.to as int], p.from, p.msg)),
        sent(p.to, reply_to(c.nodes[p.to as int], p.from, p.msg)),
    )
}

/// The cluster after node `i`'s clock ticks, `timeout` being the election
/// timeout it draws.
pub open spec fn tick_step(c: ClusterView, i: int, timeout: u64) -> ClusterView {
    let t = saved(on_tick(c.nodes[i], timeout));
    node_moves(
        c,
        i,
        t,
        if tick_sends(c.nodes[i]) {
            sent(i as usize, broadcast(t))
        } else {
            Set::empty()
        },
    )
}

/// Node `i` may restart as `t`: with the term and vote it saved, as a
/// follower.
pub open spec fn restarts_as(c: ClusterView, i: int, t: RaftView) -> bool {
    &&& t.me == c.nodes[i].me
    &&& t.n == c.nodes[i].n
    &&& t.votes.len() == c.nodes[i].votes.len()
    &&& t.current_term == c.nodes[i].current_term
    &&& t.voted_for == c.nodes[i].voted_for
    &&& t.role == Role::Follower
}

/// Node `i` may move to `t` on a call that sends nothing: a leader takes a
/// command, the service applies what is committed, takes a snapshot, or
/// switches to one received.
pub open spec fn local_move(c: ClusterView, i: int, t: RaftView) -> bool {
    let s = c.nodes[i];
    ||| exists|data: Seq<u8>| #[trigger] on_start(s, data) == Some(t)
    ||| t == after_apply(s)
    ||| exists|index: u64, data: Seq<u8>| t == #[trigger] saved(on_snapshot(s, index, data))
    ||| exists|term: u64, index: u64, data: Seq<u8>|
        t == #[trigger] saved(on_cond_install_snapshot(s, term, index, data))
}

/// One step of the cluster: a node handles a message in flight and sends
/// its answer, a node's clock ticks, a node restarts with what it saved, or
/// a node takes a command, applies, or takes or installs a snapshot.
pub open spec fn cluster_next(c: ClusterView, d: ClusterView) -> bool {
    ||| exists|p: Packet|
        c.network.contains(p) && p.to < c.nodes.len() && d == #[trigger] deliver_step(c, p)
    ||| exists|i: int, timeout: u64|
        0 <= i < c.nodes.len() && d == #[trigger] tick_step(c, i, timeout)
    ||| exists|i: int, t: RaftView|
        0 <= i < c.nodes.len() && #[trigger] restarts_as(c, i, t) && d == node_moves(
            c,
            i,
            t,
            Set::empty(),
        )
    ||| exists|i: int, t: RaftView|
        0 <= i < c.nodes.len() && #[trigger] local_move(c, i, t) && d == node_moves(
            c,
            i,
            t,
            Set::empty(),
        )
}

/// Every leader on record in `c` is still on record in `d`.
pub open spec fn leaders_kept(c: ClusterView, d: ClusterView) -> bool {
    forall|tm: int|
        #[trigger] c.leaders.contains_key(tm) ==> d.leaders.contains_key(tm) && d.leaders[tm].0
            == c.leaders[tm].0
}

/// The invariant behind election safety.
pub open spec fn cluster_inv(c: ClusterView) -> bool {
    let n = c.nodes.len();
    &&& n > 0
    &&& forall|i: int|
        0 <= i < n ==> {
            &&& (#[trigger] c.nodes[i]).me == i
            &&& c.nodes[i].n == n
            &&& c.nodes[i].votes.len() == n
        }
    // the current vote of each node is on record
    &&& forall|i: int|
        0 <= i < n && (#[trigger] c.nodes[i]).voted_for is Some ==> c.voted.contains_key(
            (i, c.nodes[i].current_term as int),
        ) && c.voted[(i, c.nodes[i].current_term as int)] == c.nodes[i].voted_for->0
    // a recorded vote is of a term the node has reached, and stands while
    // the node is in that term
    &&& forall|i: int, t: int|
        #[trigger] c.voted.contains_key((i, t)) ==> 0 <= i < n && t <= c.nodes[i].current_term
            && (t == c.nodes[i].current_term ==> c.nodes[i].voted_for == Some(
            c.voted[(i, t)] as usize,
        ))
    // a vote request comes from its candidate
    &&& forall|p: Packet|
        #[trigger] c.network.contains(p) && p.msg is RequestVote ==> p.msg->RequestVote_0.candidate_id
            == p.from
    // a granted vote was recorded for the peer it is sent to
    &&& forall|p: Packet|
        #[trigger] c.network.contains(p) && p.msg is RequestVoteReply
            && p.msg->RequestVoteReply_0.vote_granted ==> c.voted.contains_key(
            (p.from as int, p.msg->RequestVoteReply_0.term as int),
        ) && c.voted[(p.from as int, p.msg->RequestVoteReply_0.term as int)] == p.to
    // a candidate's or leader's tally counts only votes cast for it in its term
    &&& forall|i: int, k: int|
        0 <= i < n && 0 <= k < n && (#[trigger] c.nodes[i]).role != Role::Follower
            && #[trigger] c.nodes[i].votes[k] ==> c.voted.contains_key(
            (k, c.nodes[i].current_term as int),
        ) && c.voted[(k, c.nodes[i].current_term as int)] == i
    // a leader holds the votes of a majority
    &&& forall|i: int|
        0 <= i < n && (#[trigger] c.nodes[i]).role == Role::Leader ==> 2 * count_votes(
            c.nodes[i].votes,
            n as int,
        ) > n
    // a leader is on record as the leader of its term
    &&& forall|i: int|
        0 <= i < n && (#[trigger] c.nodes[i]).role == Role::Leader ==> c.leaders.contains_key(
            c.nodes[i].current_term as int,
        ) && c.leaders[c.nodes[i].current_term as int].0 == i
    // a recorded leader won a majority of votes cast for it in its term
    &&& forall|tm: int|
        #[trigger] c.leaders.contains_key(tm) ==> {
            &&& 0 <= c.leaders[tm].0 < n
            &&& c.leaders[tm].1.len() == n
            &&& 2 * count_votes(c.leaders[tm].1, n as int) > n
            &&& forall|k: int|
                0 <= k < n && #[trigger] c.leaders[tm].1[k] ==> c.voted.contains_key((k, tm))
                    && c.voted[(k, tm)] == c.leaders[tm].0
        }
}

/// A cluster that starts from scratch meets the invariant.
pub proof fn lemma_initial_inv(c: ClusterView)
    requires
        initial_cluster(c),
    ensures
        cluster_inv(c),
{
}

/// Election safety: in a cluster that meets the invariant, two nodes that
/// both lead are in different terms, or are the same node.
pub proof fn law_one_leader_per_term(c: ClusterView, i: int, j: int)
    requires
        cluster_inv(c),
        0 <= i < c.nodes.len(),
        0 <= j < c.nodes.len(),
        c.nodes[i].role == Role::Leader,
        c.nodes[j].role == Role::Leader,
        c.nodes[i].current_term == c.nodes[j].current_term,
    ensures
        i == j,
{
    let n = c.nodes.len() as int;
    law_majorities_intersect(n, c.nodes[i].votes, c.nodes[j].votes);
    let k = choose|k: int| 0 <= k < n && #[trigger] c.nodes[i].votes[k] && c.nodes[j].votes[k];
    assert(c.voted[(k, c.nodes[i].current_term as int)] == i);
    assert(c.voted[(k, c.nodes[j].current_term as int)] == j);
}

/// A node's move keeps the vote record's earlier entries: its new vote, if
/// any, is either not yet on record or the one already there.
proof fn lemma_record_keeps(c: ClusterView, i: int, t: RaftView)
    requires
        cluster_inv(c),
        0 <= i < c.nodes.len(),
        t.current_term >= c.nodes[i].current_term,
        t.current_term == c.nodes[i].current_term && c.nodes[i].voted_for is Some
            ==> t.voted_for == c.nodes[i].voted_for,
    ensures
        forall|key: (int, int)|
            #[trigger] c.voted.contains_key(key) ==> record_vote(c.voted, i, t).contains_key(key)
                && record_vote(c.voted, i, t)[key] == c.voted[key],
        record_vote(c.voted, i, t).dom() == c.voted.dom() || (t.voted_for is Some
            && record_vote(c.voted, i, t).dom() == c.voted.dom().insert(
            (i, t.current_term as int),
        )),
{
    let s = c.nodes[i];
    match t.voted_for {
        Some(v) => {
            let key = (i, t.current_term as int);
            if c.voted.contains_key(key) {
                assert(t.current_term == s.current_term);
                assert(s.voted_for == Some(c.voted[key] as usize));
                assert(c.voted[key] == v);
            }
        },
        None => {},
    }
}

/// A node moving from its state to `t` and sending `out` keeps the
/// invariant when the move keeps the node's identity and tally size, never
/// lowers its term, keeps its vote within a term, counts in its tally only
/// votes on record for it, leads only with a majority, and sends only vote
/// requests of its own and granted votes on record.
proof fn lemma_node_moves(c: ClusterView, i: int, t: RaftView, out: Set<Packet>)
    requires
        cluster_inv(c),
        0 <= i < c.nodes.len(),
        t.me == c.nodes[i].me,
        t.n == c.nodes[i].n,
        t.votes.len() == c.nodes.len(),
        t.current_term >= c.nodes[i].current_term,
        t.current_term == c.nodes[i].current_term && c.nodes[i].voted_for is Some
            ==> t.voted_for == c.nodes[i].voted_for,
        t.role != Role::Follower ==> forall|k: int|
            0 <= k < c.nodes.len() && #[trigger] t.votes[k] ==> record_vote(
                c.voted,
                i,
                t,
            ).contains_key((k, t.current_term as int)) && record_vote(c.voted, i, t)[(
                k,
                t.current_term as int,
            )] == i,
        t.role == Role::Leader ==> 2 * count_votes(t.votes, c.nodes.len() as int)
            > c.nodes.len(),
        forall|p: Packet|
            #[trigger] out.contains(p) && p.msg is RequestVote ==> p.msg->RequestVote_0.candidate_id
                == p.from,
        forall|p: Packet|
            #[trigger] out.contains(p) && p.msg is RequestVoteReply
                && p.msg->RequestVoteReply_0.vote_granted ==> record_vote(
                c.voted,
                i,
                t,
            ).contains_key((p.from as int, p.msg->RequestVoteReply_0.term as int)) && record_vote(
                c.voted,
                i,
                t,
            )[(p.from as int, p.msg->RequestVoteReply_0.term as int)] == p.to,
    ensures
        cluster_inv(node_moves(c, i, t, out)),
        leaders_kept(c, node_moves(c, i, t, out)),
{
    let d = node_moves(c, i, t, out);
    let n = c.nodes.len();
    lemma_record_keeps(c, i, t);
    let rec = record_vote(c.voted, i, t);
    let tt = t.current_term as int;
    // a new leader is the one already on record for its term, if any
    if t.role == Role::Leader && c.leaders.contains_key(tt) {
        let j = c.leaders[tt].0;
        let tally = c.leaders[tt].1;
        law_majorities_intersect(n as int, tally, t.votes);
        let k = choose|k: int| 0 <= k < n && #[trigger] tally[k] && t.votes[k];
        assert(c.voted[(k, tt)] == j);
        assert(rec[(k, tt)] == i);
    }
    assert forall|tm: int| #[trigger] d.leaders.contains_key(tm) implies {
        &&& 0 <= d.leaders[tm].0 < n
        &&& d.leaders[tm].1.len() == n
        &&& 2 * count_votes(d.leaders[tm].1, n as int) > n
        &&& forall|k: int|
            0 <= k < n && #[trigger] d.leaders[tm].1[k] ==> d.voted.contains_key((k, tm))
                && d.voted[(k, tm)] == d.leaders[tm].0
    } by {
        if t.role == Role::Leader && tm == tt {
        } else {
            assert(c.leaders.contains_key(tm));
            assert forall|k: int| 0 <= k < n && #[trigger] d.leaders[tm].1[k] implies d.voted.contains_key((k, tm))
                && d.voted[(k, tm)] == d.leaders[tm].0 by {
                assert(c.leaders[tm].1[k]);
            }
        }
    }
    assert forall|j: int|
        0 <= j < n && (#[trigger] d.nodes[j]).role == Role::Leader implies d.leaders.contains_key(
        d.nodes[j].current_term as int,
    ) && d.leaders[d.nodes[j].current_term as int].0 == j by {
        if j != i {
            assert(c.nodes[j].role == Role::Leader);
        }
    }
    assert forall|j: int, tm: int| #[trigger] d.voted.contains_key((j, tm)) implies 0 <= j < n && tm
        <= d.nodes[j].current_term && (tm == d.nodes[j].current_term ==> d.nodes[j].voted_for
        == Some(d.voted[(j, tm)] as usize)) by {
        if c.voted.contains_key((j, tm)) {
            if j == i {
                if tm == t.current_term {
                    assert(tm == c.nodes[i].current_term);
                }
            }
        }
    }
    assert forall|j: int, k: int|
        0 <= j < n && 0 <= k < n && (#[trigger] d.nodes[j]).role != Role::Follower
            && #[trigger] d.nodes[j].votes[k] implies d.voted.contains_key(
        (k, d.nodes[j].current_term as int),
    ) && d.voted[(k, d.nodes[j].current_term as int)] == j by {
        if j != i {
            assert(c.nodes[j].votes[k]);
        }
    }
    assert forall|p: Packet|
        #[trigger] d.network.contains(p) && p.msg is RequestVoteReply
            && p.msg->RequestVoteReply_0.vote_granted implies d.voted.contains_key(
        (p.from as int, p.msg->RequestVoteReply_0.term as int),
    ) && d.voted[(p.from as int, p.msg->RequestVoteReply_0.term as int)] == p.to by {
        if c.network.contains(p) {
        } else {
            assert(out.contains(p));
        }
    }
    assert forall|p: Packet|
        #[trigger] d.network.contains(p) && p.msg is RequestVote implies p.msg->RequestVote_0.candidate_id
        == p.from by {
        if c.network.contains(p) {
        } else {
            assert(out.contains(p));
        }
    }
}

/// A restart keeps the invariant.
proof fn lemma_restart_keeps_inv(c: ClusterView, i: int, t: RaftView)
    requires
        cluster_inv(c),
        0 <= i < c.nodes.len(),
        restarts_as(c, i, t),
    ensures
        cluster_inv(node_moves(c, i, t, Set::empty())),
        leaders_kept(c, node_moves(c, i, t, Set::empty())),
{
    lemma_node_moves(c, i, t, Set::empty());
}

/// The messages a node hands out on a tick are heartbeats, snapshots or
/// vote requests of its own.
proof fn lemma_broadcast_requests_own(t: RaftView, i: usize)
    requires
        t.me == i,
    ensures
        forall|p: Packet|
            #[trigger] sent(i, broadcast(t)).contains(p) ==> (p.msg is RequestVote
                ==> p.msg->RequestVote_0.candidate_id == p.from) && !(p.msg is RequestVoteReply),
{
    assert forall|p: Packet| #[trigger] sent(i, broadcast(t)).contains(p) implies (p.msg is RequestVote
        ==> p.msg->RequestVote_0.candidate_id == p.from) && !(p.msg is RequestVoteReply) by {
        let envs = broadcast(t);
        let k = choose|k: int|
            0 <= k < envs.len() && p == (Packet { from: i, to: envs[k].to, msg: envs[k].msg });
        assert(p.msg == envs[k].msg);
    }
}

/// A move that sends nothing keeps the invariant: it leaves the node's
/// term, vote, role and tally as they are.
proof fn lemma_local_move_keeps_inv(c: ClusterView, i: int, t: RaftView)
    requires
        cluster_inv(c),
        0 <= i < c.nodes.len(),
        local_move(c, i, t),
    ensures
        cluster_inv(node_moves(c, i, t, Set::empty())),
        leaders_kept(c, node_moves(c, i, t, Set::empty())),
{
    let s = c.nodes[i];
    if exists|data: Seq<u8>| #[trigger] on_start(s, data) == Some(t) {
        let data = choose|data: Seq<u8>| #[trigger] on_start(s, data) == Some(t);
        assert(t.votes == s.votes && t.role == s.role && t.current_term == s.current_term);
    }
    assert(t.votes == s.votes && t.role == s.role && t.current_term == s.current_term
        && t.voted_for == s.voted_for && t.me == s.me && t.n == s.n);
    lemma_node_moves(c, i, t, Set::empty());
}

/// A clock tick keeps the invariant.
proof fn lemma_tick_keeps_inv(c: ClusterView, i: int, timeout: u64)
    requires
        cluster_inv(c),
        0 <= i < c.nodes.len(),
    ensures
        cluster_inv(tick_step(c, i, timeout)),
        leaders_kept(c, tick_step(c, i, timeout)),
{
    let s = c.nodes[i];
    let t = saved(on_tick(s, timeout));
    let out = if tick_sends(s) {
        sent(i as usize, broadcast(t))
    } else {
        Set::empty()
    };
    lemma_broadcast_requests_own(t, i as usize);
    if t.role != Role::Follower && t.current_term != s.current_term {
        assert forall|k: int| 0 <= k < c.nodes.len() && #[trigger] t.votes[k] implies record_vote(
            c.voted,
            i,
            t,
        ).contains_key((k, t.current_term as int)) && record_vote(c.voted, i, t)[(
            k,
            t.current_term as int,
        )] == i by {
            assert(k == i);
        }
    }
    lemma_node_moves(c, i, t, out);
}

/// Handling a message in flight, and answering it, keeps the invariant.
proof fn lemma_deliver_keeps_inv(c: ClusterView, p: Packet)
    requires
        cluster_inv(c),
        c.network.contains(p),
        p.to < c.nodes.len(),
    ensures
        cluster_inv(deliver_step(c, p)),
        leaders_kept(c, deliver_step(c, p)),
{
    let i = p.to as int;
    let s = c.nodes[i];
    let t = saved(on_message(s, p.from, p.msg));
    let out = sent(p.to, reply_to(s, p.from, p.msg));
    let n = c.nodes.len();
    lemma_record_keeps(c, i, t);
    let rec = record_vote(c.voted, i, t);
    // what the node sends back
    assert forall|q: Packet| #[trigger] out.contains(q) implies !(q.msg is RequestVote) && (
    q.msg is RequestVoteReply && q.msg->RequestVoteReply_0.vote_granted ==> rec.contains_key(
        (q.from as int, q.msg->RequestVoteReply_0.term as int),
    ) && rec[(q.from as int, q.msg->RequestVoteReply_0.term as int)] == q.to) by {
        let envs = reply_to(s, p.from, p.msg);
        let k = choose|k: int|
            0 <= k < envs.len() && q == (Packet { from: p.to, to: envs[k].to, msg: envs[k].msg });
        match p.msg {
            MessageView::RequestVote(a) => {
                assert(envs.len() == 1);
                assert(k == 0);
                assert(a.candidate_id == p.from);
            },
            MessageView::AppendEntries(_) => {
                assert(k == 0);
            },
            MessageView::InstallSnapshot(_) => {
                assert(k == 0);
            },
            _ => {
                assert(envs.len() == 0);
            },
        }
    }
    // what the node counts
    if t.role != Role::Follower {
        assert forall|k: int| 0 <= k < n && #[trigger] t.votes[k] implies rec.contains_key(
            (k, t.current_term as int),
        ) && rec[(k, t.current_term as int)] == i by {
            match p.msg {
                MessageView::RequestVoteReply(r) => {
                    if k == p.from as int && !s.votes[k] {
                        assert(c.network.contains(p));
                    } else {
                        assert(s.votes[k]);
                    }
                },
                _ => {
                    assert(s.votes[k]);
                },
            }
        }
    }
    lemma_node_moves(c, i, t, out);
}

/// Every step of the cluster keeps the invariant.
pub proof fn law_cluster_inv_preserved(c: ClusterView, d: ClusterView)
    requires
        cluster_inv(c),
        cluster_next(c, d),
    ensures
        cluster_inv(d),
        leaders_kept(c, d),
{
    if exists|p: Packet| c.network.contains(p) && p.to < c.nodes.len() && d == #[trigger] deliver_step(c, p) {
        let p = choose|p: Packet| c.network.contains(p) && p.to < c.nodes.len() && d == #[trigger] deliver_step(c, p);
        lemma_deliver_keeps_inv(c, p);
    } else if exists|i: int, timeout: u64| 0 <= i < c.nodes.len() && d == #[trigger] tick_step(c, i, timeout) {
        let (i, timeout) = choose|i: int, timeout: u64| 0 <= i < c.nodes.len() && d == #[trigger] tick_step(c, i, timeout);
        lemma_tick_keeps_inv(c, i, timeout);
    } else if exists|i: int, t: RaftView|
        0 <= i < c.nodes.len() && #[trigger] restarts_as(c, i, t) && d == node_moves(c, i, t, Set::empty()) {
        let (i, t) = choose|i: int, t: RaftView|
            0 <= i < c.nodes.len() && #[trigger] restarts_as(c, i, t) && d == node_moves(c, i, t, Set::empty());
        lemma_restart_keeps_inv(c, i, t);
    } else {
        let (i, t) = choose|i: int, t: RaftView|
            0 <= i < c.nodes.len() && #[trigger] local_move(c, i, t) && d == node_moves(c, i, t, Set::empty());
        lemma_local_move_keeps_inv(c, i, t);
    }
}

/// Every state of a run that starts from scratch meets the invariant.
proof fn lemma_run_inv(run: Seq<ClusterView>, k: int)
    requires
        run.len() > 0,
        initial_cluster(run[0]),
        forall|m: int| 0 <= m < run.len() - 1 ==> cluster_next(#[trigger] run[m], run[m + 1]),
        0 <= k < run.len(),
    ensures
        cluster_inv(run[k]),
    decreases k,
{
    if k == 0 {
        lemma_initial_inv(run[0]);
    } else {
        lemma_run_inv(run, k - 1);
        law_cluster_inv_preserved(run[k - 1], run[k]);
    }
}

/// Election safety over a whole run: in a cluster that starts from scratch
/// and then takes any steps (messages lost, duplicated, delayed or
/// reordered, nodes restarting), at no point do two nodes lead in the same
/// term.
pub proof fn law_election_safety(run: Seq<ClusterView>, k: int, i: int, j: int)
    requires
        run.len() > 0,
        initial_cluster(run[0]),
        forall|m: int| 0 <= m < run.len() - 1 ==> cluster_next(#[trigger] run[m], run[m + 1]),
        0 <= k < run.len(),
        0 <= i < run[k].nodes.len(),
        0 <= j < run[k].nodes.len(),
        run[k].nodes[i].role == Role::Leader,
        run[k].nodes[j].role == Role::Leader,
        run[k].nodes[i].current_term == run[k].nodes[j].current_term,
    ensures
        i == j,
{
    lemma_run_inv(run, k);
    law_one_leader_per_term(run[k], i, j);
}

/// Along a run, a leader once on record stays on record.
proof fn lemma_run_keeps_leaders(run: Seq<ClusterView>, k1: int, k2: int)
    requires
        run.len() > 0,
        initial_cluster(run[0]),
        forall|m: int| 0 <= m < run.len() - 1 ==> cluster_next(#[trigger] run[m], run[m + 1]),
        0 <= k1 <= k2 < run.len(),
    ensures
        leaders_kept(run[k1], run[k2]),
    decreases k2 - k1,
{
    if k1 < k2 {
        lemma_run_keeps_leaders(run, k1, k2 - 1);
        lemma_run_inv(run, k2 - 1);
        law_cluster_inv_preserved(run[k2 - 1], run[k2]);
    }
}

/// Election safety across time: in a run from scratch, a node seen leading
/// in some term at one point and a node seen leading in the same term at
/// any other point are the same node.
pub proof fn law_one_leader_per_term_ever(run: Seq<ClusterView>, k1: int, i: int, k2: int, j: int)
    requires
        run.len() > 0,
        initial_cluster(run[0]),
        forall|m: int| 0 <= m < run.len() - 1 ==> cluster_next(#[trigger] run[m], run[m + 1]),
        0 <= k1 < run.len(),
        0 <= k2 < run.len(),
        0 <= i < run[k1].nodes.len(),
        0 <= j < run[k2].nodes.len(),
        run[k1].nodes[i].role == Role::Leader,
        run[k2].nodes[j].role == Role::Leader,
        run[k1].nodes[i].current_term == run[k2].nodes[j].current_term,
    ensures
        i == j,
{
    let tm = run[k1].nodes[i].current_term as int;
    lemma_run_inv(run, k1);
    lemma_run_inv(run, k2);
    if k1 <= k2 {
        lemma_run_keeps_leaders(run, k1, k2);
    } else {
        lemma_run_keeps_leaders(run, k2, k1);
    }
    assert(run[k1].leaders[tm].0 == i);
    assert(run[k2].leaders[tm].0 == j);
}

} // verus!
