//! The RPC messages that Raft peers exchange.
use vstd::prelude::*;
use super::codec::{entries_view, EntryView, LogEntry};

verus! {

/// Invoked by candidates to gather votes.
#[derive(Clone, Copy)]
pub struct RequestVoteArgs {
    pub term: u64,
    pub candidate_id: usize,
    pub last_log_index: u64,
    pub last_log_term: u64,
}

/// The answer to a vote request.
#[derive(Clone, Copy)]
pub struct RequestVoteReply {
    pub term: u64,
    pub vote_granted: bool,
}

/// Invoked by the leader to replicate log entries; also the heartbeat.
pub struct AppendEntriesArgs {
    pub term: u64,
    pub leader_id: usize,
    pub prev_log_index: u64,
    pub prev_log_term: u64,
    pub entries: Vec<LogEntry>,
    pub leader_commit: u64,
}

/// The answer to an append request. On success `match_index` is the index of
/// the last entry the follower now shares with the leader; on failure
/// `conflict_index` is where the leader should resume.
#[derive(Clone, Copy)]
pub struct AppendEntriesReply {
    pub term: u64,
    pub success: bool,
    pub match_index: u64,
    pub conflict_index: u64,
}

/// Invoked by the leader to send a follower its snapshot.
pub struct InstallSnapshotArgs {
    pub term: u64,
    pub leader_id: usize,
    pub last_included_index: u64,
    pub last_included_term: u64,
    pub data: Vec<u8>,
}

/// The answer to a snapshot; it names the snapshot it answers.
#[derive(Clone, Copy)]
pub struct InstallSnapshotReply {
    pub term: u64,
    pub last_included_index: u64,
}

/// Any message between two peers.
pub enum Message {
    RequestVote(RequestVoteArgs),
    RequestVoteReply(RequestVoteReply),
    AppendEntries(AppendEntriesArgs),
    AppendEntriesReply(AppendEntriesReply),
    InstallSnapshot(InstallSnapshotArgs),
    InstallSnapshotReply(InstallSnapshotReply),
}

/// A message and the peer it is sent to.
pub struct Envelope {
    pub to: usize,
    pub msg: Message,
}

pub struct AppendEntriesArgsView {
    pub term: u64,
    pub leader_id: usize,
    pub prev_log_index: u64,
    pub prev_log_term: u64,
    pub entries: Seq<EntryView>,
    pub leader_commit: u64,
}

pub struct InstallSnapshotArgsView {
    pub term: u64,
    pub leader_id: usize,
    pub last_included_index: u64,
    pub last_included_term: u64,
    pub data: Seq<u8>,
}

pub enum MessageView {
    RequestVote(RequestVoteArgs),
    RequestVoteReply(RequestVoteReply),
    AppendEntries(AppendEntriesArgsView),
    AppendEntriesReply(AppendEntriesReply),
    InstallSnapshot(InstallSnapshotArgsView),
    InstallSnapshotReply(InstallSnapshotReply),
}

pub struct EnvelopeView {
    pub to: usize,
    pub msg: MessageView,
}

impl View for AppendEntriesArgs {
    type V = AppendEntriesArgsView;

    open spec fn view(&self) -> AppendEntriesArgsView {
        AppendEntriesArgsView {
            term: self.term,
            leader_id: self.leader_id,
            prev_log_index: self.prev_log_index,
            prev_log_term: self.prev_log_term,
            entries: entries_view(self.entries@),
            leader_commit: self.leader_commit,
        }
    }
}

impl View for InstallSnapshotArgs {
    type V = InstallSnapshotArgsView;

    open spec fn view(&self) -> InstallSnapshotArgsView {
        InstallSnapshotArgsView {
            term: self.term,
            leader_id: self.leader_id,
            last_included_index: self.last_included_index,
            last_included_term: self.last_included_term,
            data: self.data@,
        }
    }
}

impl View for Message {
    type V = MessageView;

    open spec fn view(&self) -> MessageView {
        match self {
            Message::RequestVote(a) => MessageView::RequestVote(*a),
            Message::RequestVoteReply(r) => MessageView::RequestVoteReply(*r),
            Message::AppendEntries(a) => MessageView::AppendEntries(a@),
            Message::AppendEntriesReply(r) => MessageView::AppendEntriesReply(*r),
            Message::InstallSnapshot(a) => MessageView::InstallSnapshot(a@),
            Message::InstallSnapshotReply(r) => MessageView::InstallSnapshotReply(*r),
        }
    }
}

impl View for Envelope {
    type V = EnvelopeView;

    open spec fn view(&self) -> EnvelopeView {
        EnvelopeView { to: self.to, msg: self.msg@ }
    }
}

/// The views of a sequence of envelopes.
pub open spec fn envelopes_view(out: Seq<Envelope>) -> Seq<EnvelopeView> {
    out.map_values(|e: Envelope| e@)
}

} // verus!
