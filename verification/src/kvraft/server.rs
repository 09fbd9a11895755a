//! A key/value server: a Raft node and the state machine that applies what
//! the node commits, with a snapshot once the saved Raft state grows too
//! large.
use vstd::prelude::*;
use crate::raft::errors::Error as RaftError;
use crate::raft::messages::{envelopes_view, Envelope, Message};
use crate::raft::codec::{state_bytes, PersistentStateView};
use crate::raft::node::{
    apply_msgs_view, initial_persistent, restorable, ApplyMsg, Node as RaftNode, Raft, State,
};
use crate::raft::persister::Persister;
use crate::raft::spec::{
    after_apply, broadcast, may_install, on_cond_install_snapshot, on_message, on_snapshot, on_start,
    on_tick, reply_to, saved, tick_sends, to_apply, ApplyMsgView, RaftView, Role,
};
use super::command::{command_bytes, decode_command, encode_command, parse_command, Command, CommandView, OpKind};
use super::errors::Error;
use super::state::{apply_spec, parse_snapshot, KvStateMachine, KvStateView};

verus! {

/// What a server reports of a command it applied: where it stood in the log,
/// whose operation it was, and what it answers.
pub struct Applied {
    pub index: u64,
    pub client: String,
    pub seq: u64,
    pub reply: String,
}

/// The mathematical value of an applied command.
pub struct AppliedView {
    pub index: u64,
    pub client: Seq<char>,
    pub seq: u64,
    pub reply: Seq<char>,
}

impl View for Applied {
    type V = AppliedView;

    open spec fn view(&self) -> AppliedView {
        AppliedView { index: self.index, client: self.client@, seq: self.seq, reply: self.reply@ }
    }
}

/// The views of a sequence of applied commands.
pub open spec fn applied_view(s: Seq<Applied>) -> Seq<AppliedView> {
    s.map_values(|a: Applied| a@)
}

/// The state a server starts from, given the snapshot saved: none when the
/// snapshot does not decode.
pub open spec fn restored(snapshot: Seq<u8>) -> Option<KvStateView> {
    if snapshot.len() == 0 {
        Some(KvStateView { data: Map::empty(), sessions: Map::empty() })
    } else {
        parse_snapshot(snapshot)
    }
}

/// One message from the Raft node: a command is applied; a snapshot that
/// decodes is offered to the node and, if the node installs it, replaces the
/// state; anything else is ignored.
pub open spec fn service_step(r: RaftView, s: KvStateView, m: ApplyMsgView) -> (
    RaftView,
    KvStateView,
    Option<AppliedView>,
) {
    match m {
        ApplyMsgView::Command { data, index } => match parse_command(data) {
            Some(c) => (
                r,
                apply_spec(s, c).0,
                Some(AppliedView { index, client: c.client, seq: c.seq, reply: apply_spec(s, c).1 }),
            ),
            None => (r, s, None),
        },
        ApplyMsgView::Snapshot { data, term, index } => match parse_snapshot(data) {
            None => (r, s, None),
            Some(snap) => (
                saved(on_cond_install_snapshot(r, term, index, data)),
                if may_install(r, term, index) {
                    snap
                } else {
                    s
                },
                None,
            ),
        },
    }
}

/// The messages handled in order, with what was applied.
pub open spec fn service_apply(r: RaftView, s: KvStateView, msgs: Seq<ApplyMsgView>) -> (
    RaftView,
    KvStateView,
    Seq<AppliedView>,
)
    decreases msgs.len(),
{
    if msgs.len() == 0 {
        (r, s, Seq::empty())
    } else {
        let prev = service_apply(r, s, msgs.drop_last());
        let step = service_step(prev.0, prev.1, msgs.last());
        (
            step.0,
            step.1,
            match step.2 {
                Some(a) => prev.2.push(a),
                None => prev.2,
            },
        )
    }
}

/// The command a newly elected leader offers so that the entries of earlier
/// terms commit without waiting for a client: a read of no key by no client,
/// which changes nothing.
pub open spec fn barrier_view() -> CommandView {
    CommandView {
        client: Seq::empty(),
        seq: 0,
        kind: OpKind::Get,
        key: Seq::empty(),
        value: Seq::empty(),
    }
}

/// A leader that holds no entry of its own term yet appends the barrier.
pub open spec fn with_barrier(r: RaftView) -> RaftView {
    if r.role == Role::Leader && r.last_term() != r.current_term {
        match on_start(r, command_bytes(barrier_view())) {
            Some(s1) => saved(s1),
            None => r,
        }
    } else {
        r
    }
}

/// The Raft state grew to the limit: the node takes the snapshot `b` of
/// everything applied.
pub open spec fn compacted(r: RaftView, maxraftstate: Option<usize>, b: Seq<u8>) -> RaftView {
    match maxraftstate {
        Some(m) => if r.persisted.len() >= m {
            saved(on_snapshot(r, r.last_applied, b))
        } else {
            r
        },
        None => r,
    }
}

/// A key/value server.
pub struct KvServer<P: Persister> {
    rf: RaftNode<P>,
    me: usize,
    maxraftstate: Option<usize>,
    sm: KvStateMachine,
}

impl<P: Persister> KvServer<P> {
    /// The state of the Raft node.
    pub closed spec fn raft_view(&self) -> RaftView {
        self.rf.raft_view()
    }

    /// The state of the key/value data.
    pub closed spec fn state(&self) -> KvStateView {
        self.sm@
    }

    /// The size of the saved Raft state at which a snapshot is taken.
    pub closed spec fn max_raft_state(&self) -> Option<usize> {
        self.maxraftstate
    }

    /// The index of this server among its peers.
    pub closed spec fn spec_me(&self) -> usize {
        self.me
    }

    /// The bytes of a snapshot of the current state.
    pub closed spec fn snapshot_bytes(&self) -> Seq<u8> {
        self.sm.snapshot_bytes()
    }

    /// Whether the server has been killed.
    pub closed spec fn is_killed(&self) -> bool {
        self.rf.is_killed()
    }

    /// The Raft node is in a consistent state.
    pub closed spec fn wf(&self) -> bool {
        self.rf.raft_view().wf()
    }

    /// Starts server `me` of `n`, resuming from what `persister` holds: the
    /// Raft state, and the key/value state from the saved snapshot. Fails
    /// when either cannot be decoded.
    pub fn new(n: usize, me: usize, persister: P, maxraftstate: Option<usize>) -> (r: Result<
        KvServer<P>,
        RaftError,
    >)
        requires
            me < n,
        ensures
            match r {
                Ok(kv) => {
                    &&& kv.wf()
                    &&& !kv.is_killed()
                    &&& kv.spec_me() == me
                    &&& kv.max_raft_state() == maxraftstate
                    &&& kv.raft_view().me == me
                    &&& kv.raft_view().n == n
                    &&& kv.raft_view().role == Role::Follower
                    &&& kv.raft_view().last_applied == kv.raft_view().snapshot_index
                    &&& kv.raft_view().snapshot == persister.spec_snapshot()
                    &&& restored(persister.spec_snapshot()) == Some(kv.state())
                    &&& (persister.spec_raft_state().len() == 0 ==> kv.raft_view().persistent()
                        == initial_persistent())
                    &&& (persister.spec_raft_state().len() != 0 ==> state_bytes(
                        kv.raft_view().persistent(),
                    ) == persister.spec_raft_state())
                },
                Err(e) => {
                    &&& e == RaftError::Decode
                    &&& (restored(persister.spec_snapshot()) is None || (
                    persister.spec_raft_state().len() != 0 && forall|ps: PersistentStateView|
                        restorable(ps, n) ==> state_bytes(ps) != persister.spec_raft_state()))
                },
            },
    {
        let snapshot = persister.snapshot();
        let sm = if snapshot.len() == 0 {
            KvStateMachine::new()
        } else {
            match KvStateMachine::decode(snapshot.as_slice()) {
                Some(m) => m,
                None => {
                    return Err(RaftError::Decode);
                },
            }
        };
        let raft = match Raft::new(n, me, persister) {
            Ok(rf) => rf,
            Err(e) => {
                return Err(e);
            },
        };
        proof {
            if snapshot@.len() == 0 {
                assert(sm@.data =~= Map::<Seq<char>, Seq<char>>::empty());
                assert(sm@.sessions =~= Map::<Seq<char>, u64>::empty());
            }
        }
        Ok(KvServer { rf: RaftNode::new(raft), me, maxraftstate, sm })
    }

    /// Offers a command to the Raft node; the node takes it only while it
    /// leads, and answers with the index and term it will have.
    pub fn start(&mut self, cmd: &Command) -> (r: Result<(u64, u64), RaftError>)
        requires
            old(self).wf(),
        ensures
            final(self).wf(),
            final(self).state() == old(self).state(),
            final(self).is_killed() == old(self).is_killed(),
            final(self).max_raft_state() == old(self).max_raft_state(),
            final(self).spec_me() == old(self).spec_me(),
            match on_start(old(self).raft_view(), command_bytes(cmd@)) {
                Some(s1) => {
                    &&& final(self).raft_view() == saved(s1)
                    &&& r == Ok::<(u64, u64), RaftError>(
                        (
                            (old(self).raft_view().last_index() + 1) as u64,
                            old(self).raft_view().current_term,
                        ),
                    )
                },
                None => {
                    &&& final(self).raft_view() == old(self).raft_view()
                    &&& r == Err::<(u64, u64), RaftError>(
                        if old(self).raft_view().role != Role::Leader {
                            RaftError::NotLeader
                        } else {
                            RaftError::LogFull
                        },
                    )
                },
            },
    {
        let data = encode_command(cmd);
        self.rf.start(data)
    }

    /// Applies everything the Raft node has committed since the last call,
    /// in order, and installs a snapshot the node received; then, if the
    /// saved Raft state has reached the limit, has the node take a snapshot
    /// of the state. Gives back the commands applied.
    pub fn apply_committed(&mut self) -> (out: Vec<Applied>)
        requires
            old(self).wf(),
        ensures
            final(self).wf(),
            final(self).is_killed() == old(self).is_killed(),
            final(self).max_raft_state() == old(self).max_raft_state(),
            final(self).spec_me() == old(self).spec_me(),
            ({
                let mid = service_apply(
                    after_apply(old(self).raft_view()),
                    old(self).state(),
                    to_apply(old(self).raft_view()),
                );
                &&& applied_view(out@) == mid.2
                &&& final(self).state() == mid.1
                &&& final(self).raft_view() == compacted(
                    mid.0,
                    old(self).max_raft_state(),
                    final(self).snapshot_bytes(),
                )
            }),
    {
        let ghost r0 = after_apply(self.rf.raft_view());
        let ghost s0 = self.sm@;
        let msgs = self.rf.take_apply_msgs();
        let ghost mv = apply_msgs_view(msgs@);
        let mut out: Vec<Applied> = Vec::new();
        let mut i: usize = 0;
        while i < msgs.len()
            invariant
                i <= msgs.len(),
                mv == apply_msgs_view(msgs@),
                self.rf.raft_view().wf(),
                self.rf.is_killed() == old(self).is_killed(),
                self.maxraftstate == old(self).maxraftstate,
                self.me == old(self).me,
                service_apply(r0, s0, mv.take(i as int)) == (
                    self.rf.raft_view(),
                    self.sm@,
                    applied_view(out@),
                ),
            decreases msgs.len() - i,
        {
            let ghost before_out = out@;
            let ghost r = self.rf.raft_view();
            let ghost s = self.sm@;
            proof {
                assert(mv.take(i + 1).drop_last() =~= mv.take(i as int));
                assert(mv.take(i + 1).last() == msgs@[i as int]@);
            }
            match &msgs[i] {
                ApplyMsg::Command { data, index } => {
                    match decode_command(data.as_slice()) {
                        Some(c) => {
                            let reply = self.sm.apply(&c);
                            out.push(Applied { index: *index, client: c.client, seq: c.seq, reply });
                            proof {
                                assert(applied_view(out@) =~= applied_view(before_out).push(
                                    out@.last()@,
                                ));
                            }
                        },
                        None => {},
                    }
                },
                ApplyMsg::Snapshot { data, term, index } => {
                    match KvStateMachine::decode(data.as_slice()) {
                        Some(m) => {
                            let installed = self.rf.cond_install_snapshot(*term, *index, data.as_slice());
                            if installed {
                                self.sm = m;
                            }
                        },
                        None => {},
                    }
                },
            }
            i = i + 1;
        }
        proof {
            assert(mv.take(msgs.len() as int) =~= mv);
        }
        self.maybe_snapshot();
        out
    }

    /// Has the Raft node take a snapshot of the state once the saved Raft
    /// state has reached the limit.
    fn maybe_snapshot(&mut self)
        requires
            old(self).wf(),
        ensures
            final(self).wf(),
            final(self).is_killed() == old(self).is_killed(),
            final(self).state() == old(self).state(),
            final(self).snapshot_bytes() == old(self).snapshot_bytes(),
            final(self).max_raft_state() == old(self).max_raft_state(),
            final(self).spec_me() == old(self).spec_me(),
            final(self).raft_view() == compacted(
                old(self).raft_view(),
                old(self).max_raft_state(),
                old(self).snapshot_bytes(),
            ),
    {
        match self.maxraftstate {
            Some(m) => {
                if self.rf.raft_state_size() >= m {
                    let b = self.sm.encode();
                    let applied = self.rf.last_applied();
                    self.rf.snapshot(applied, b.as_slice());
                }
            },
            None => {},
        }
    }

    /// One clock tick of the Raft node. A leader that holds no entry of its
    /// own term yet first appends the barrier, so that what earlier leaders
    /// replicated commits even when no client writes.
    pub fn tick(&mut self) -> (out: Vec<Envelope>)
        requires
            old(self).wf(),
        ensures
            final(self).wf(),
            final(self).state() == old(self).state(),
            final(self).is_killed() == old(self).is_killed(),
            final(self).max_raft_state() == old(self).max_raft_state(),
            final(self).spec_me() == old(self).spec_me(),
            old(self).is_killed() ==> final(self).raft_view() == old(self).raft_view() && out@.len()
                == 0,
            !old(self).is_killed() ==> final(self).raft_view() == saved(
                on_tick(with_barrier(old(self).raft_view()), final(self).raft_view().election_timeout),
            ) && envelopes_view(out@) == if tick_sends(with_barrier(old(self).raft_view())) {
                broadcast(final(self).raft_view())
            } else {
                Seq::empty()
            },
    {
        if !self.rf.killed() && self.rf.is_leader() && self.rf.last_log_term() != self.rf.term() {
            let barrier = Command {
                client: String::new(),
                seq: 0,
                kind: OpKind::Get,
                key: String::new(),
                value: String::new(),
            };
            assert(barrier@ == barrier_view());
            let _ = self.start(&barrier);
        }
        self.rf.tick()
    }

    /// A message from peer `from` to the Raft node.
    pub fn step(&mut self, from: usize, msg: Message) -> (out: Vec<Envelope>)
        requires
            old(self).wf(),
        ensures
            final(self).wf(),
            final(self).state() == old(self).state(),
            final(self).is_killed() == old(self).is_killed(),
            final(self).max_raft_state() == old(self).max_raft_state(),
            final(self).spec_me() == old(self).spec_me(),
            old(self).is_killed() ==> final(self).raft_view() == old(self).raft_view() && out@.len()
                == 0,
            !old(self).is_killed() ==> final(self).raft_view() == saved(
                on_message(old(self).raft_view(), from, msg@),
            ) && envelopes_view(out@) == reply_to(old(self).raft_view(), from, msg@),
    {
        self.rf.step(from, msg)
    }

    /// Stops the server's Raft node.
    pub fn kill(&mut self)
        ensures
            final(self).is_killed(),
            final(self).raft_view() == old(self).raft_view(),
            final(self).state() == old(self).state(),
            final(self).max_raft_state() == old(self).max_raft_state(),
            final(self).spec_me() == old(self).spec_me(),
    {
        self.rf.kill();
    }

    /// The node's term and whether it leads.
    pub fn get_state(&self) -> (st: State)
        ensures
            st.term == self.raft_view().current_term,
            st.is_leader == (self.raft_view().role == Role::Leader),
    {
        self.rf.get_state()
    }

    /// The value the state holds for `key`, empty where it has none.
    pub fn value_of(&self, key: &String) -> (v: String)
        ensures
            v@ == super::state::current_value(self.state(), key@),
    {
        self.sm.get(key)
    }

    /// The Raft node's persister.
    pub fn persister(&self) -> (p: &P)
        ensures
            self.raft_view().persisted == p.spec_raft_state(),
            self.raft_view().snapshot == p.spec_snapshot(),
    {
        self.rf.persister()
    }

    /// The length of the saved Raft state.
    pub fn raft_state_size(&self) -> (size: usize)
        ensures
            size == self.raft_view().persisted.len(),
    {
        self.rf.raft_state_size()
    }
}

/// A read of `key` by client `name`, as its operation number `seq`.
#[derive(Clone, Debug)]
pub struct GetRequest {
    pub key: String,
    pub name: String,
    pub seq: u64,
}

/// The answer to a read: `wrong_leader` when the server asked does not
/// lead, else the value.
#[derive(Clone, Debug)]
pub struct GetReply {
    pub wrong_leader: bool,
    pub err: String,
    pub value: String,
}

/// A put or an append of `value` to `key` by client `name`.
#[derive(Clone, Debug)]
pub struct PutAppendRequest {
    pub key: String,
    pub value: String,
    pub op: OpKind,
    pub name: String,
    pub seq: u64,
}

/// The answer to a put or an append.
#[derive(Clone, Debug)]
pub struct PutAppendReply {
    pub wrong_leader: bool,
    pub err: String,
}

/// The command that a read request stands for.
pub open spec fn get_command(arg: GetRequest) -> CommandView {
    CommandView { client: arg.name@, seq: arg.seq, kind: OpKind::Get, key: arg.key@, value: Seq::empty() }
}

/// The command that a put or append request stands for; a request that
/// names a read stands for an append.
pub open spec fn put_append_command(arg: PutAppendRequest) -> CommandView {
    CommandView {
        client: arg.name@,
        seq: arg.seq,
        kind: if arg.op == OpKind::Put {
            OpKind::Put
        } else {
            OpKind::Append
        },
        key: arg.key@,
        value: arg.value@,
    }
}

/// Whether an applied command answers the operation `seq` of `client`, and
/// with what. Another command at the index the operation was given means
/// that the server lost its leadership before the operation committed.
pub fn reply_for(applied: &Applied, client: &String, seq: u64) -> (r: Option<String>)
    ensures
        match r {
            Some(v) => applied.client@ == client@ && applied.seq == seq && v@ == applied.reply@,
            None => !(applied.client@ == client@ && applied.seq == seq),
        },
{
    if applied.client == *client && applied.seq == seq {
        Some(applied.reply.clone())
    } else {
        None
    }
}

/// The service end of a key/value server: it turns client requests into
/// commands offered to Raft.
pub struct Node<P: Persister> {
    pub server: KvServer<P>,
}

impl<P: Persister> Node<P> {
    /// Wraps a server.
    pub fn new(kv: KvServer<P>) -> (node: Node<P>)
        ensures
            node.server == kv,
    {
        Node { server: kv }
    }

    /// Stops the server.
    pub fn kill(&mut self)
        ensures
            final(self).server.is_killed(),
            final(self).server.raft_view() == old(self).server.raft_view(),
            final(self).server.state() == old(self).server.state(),
            final(self).server.max_raft_state() == old(self).server.max_raft_state(),
            final(self).server.spec_me() == old(self).server.spec_me(),
    {
        self.server.kill();
    }

    /// The current term of this node.
    pub fn term(&self) -> (t: u64)
        ensures
            t == self.server.raft_view().current_term,
    {
        self.get_state().term()
    }

    /// Whether this node believes it leads.
    pub fn is_leader(&self) -> (b: bool)
        ensures
            b == (self.server.raft_view().role == Role::Leader),
    {
        self.get_state().is_leader()
    }

    /// The node's term and whether it leads.
    pub fn get_state(&self) -> (st: State)
        ensures
            st.term == self.server.raft_view().current_term,
            st.is_leader == (self.server.raft_view().role == Role::Leader),
    {
        self.server.get_state()
    }

    /// Offers a read to Raft. A server that does not lead refuses it; the
    /// answer comes once the command at the given index is applied.
    pub fn get(&mut self, arg: &GetRequest) -> (r: Result<(u64, u64), Error>)
        requires
            old(self).server.wf(),
        ensures
            final(self).server.wf(),
            final(self).server.state() == old(self).server.state(),
            final(self).server.is_killed() == old(self).server.is_killed(),
            final(self).server.max_raft_state() == old(self).server.max_raft_state(),
            final(self).server.spec_me() == old(self).server.spec_me(),
            match on_start(old(self).server.raft_view(), command_bytes(get_command(*arg))) {
                Some(s1) => {
                    &&& final(self).server.raft_view() == saved(s1)
                    &&& r == Ok::<(u64, u64), Error>(
                        (
                            (old(self).server.raft_view().last_index() + 1) as u64,
                            old(self).server.raft_view().current_term,
                        ),
                    )
                },
                None => {
                    &&& final(self).server.raft_view() == old(self).server.raft_view()
                    &&& r == Err::<(u64, u64), Error>(Error::NoLeader)
                },
            },
    {
        let cmd = Command {
            client: arg.name.clone(),
            seq: arg.seq,
            kind: OpKind::Get,
            key: arg.key.clone(),
            value: String::new(),
        };
        match self.server.start(&cmd) {
            Ok(p) => Ok(p),
            Err(_) => Err(Error::NoLeader),
        }
    }

    /// Offers a put or an append to Raft, as `get` does a read.
    pub fn put_append(&mut self, arg: &PutAppendRequest) -> (r: Result<(u64, u64), Error>)
        requires
            old(self).server.wf(),
        ensures
            final(self).server.wf(),
            final(self).server.state() == old(self).server.state(),
            final(self).server.is_killed() == old(self).server.is_killed(),
            final(self).server.max_raft_state() == old(self).server.max_raft_state(),
            final(self).server.spec_me() == old(self).server.spec_me(),
            match on_start(old(self).server.raft_view(), command_bytes(put_append_command(*arg))) {
                Some(s1) => {
                    &&& final(self).server.raft_view() == saved(s1)
                    &&& r == Ok::<(u64, u64), Error>(
                        (
                            (old(self).server.raft_view().last_index() + 1) as u64,
                            old(self).server.raft_view().current_term,
                        ),
                    )
                },
                None => {
                    &&& final(self).server.raft_view() == old(self).server.raft_view()
                    &&& r == Err::<(u64, u64), Error>(Error::NoLeader)
                },
            },
    {
        let kind = match arg.op {
            OpKind::Put => OpKind::Put,
            _ => OpKind::Append,
        };
        let cmd = Command {
            client: arg.name.clone(),
            seq: arg.seq,
            kind,
            key: arg.key.clone(),
            value: arg.value.clone(),
        };
        match self.server.start(&cmd) {
            Ok(p) => Ok(p),
            Err(_) => Err(Error::NoLeader),
        }
    }
}

} // verus!
