//! Key/value service scenarios on a simulated network: a tick stands for
//! forty milliseconds, every server is ticked once per tick, Raft messages
//! take a tick or more and may be lost on an unreliable network, and clients
//! are stepped once per tick.
use std::collections::HashMap;

use rand::seq::SliceRandom;
use rand::Rng;
use talent_plan::kvraft::checks::{check_clnt_appends, check_concurrent_appends, next_value};
use talent_plan::kvraft::client::{Clerk, Next};
use talent_plan::kvraft::command::OpKind;
use talent_plan::kvraft::server::{
    reply_for, Applied, GetReply, GetRequest, KvServer, Node, PutAppendReply, PutAppendRequest,
};
use talent_plan::linearizability::model::{Model, Operation};
use talent_plan::raft::messages::{Envelope, Message};
use talent_plan::raft::persister::{Persister, SimplePersister};
use std::collections::HashSet;

/// The tester allows one second for an election.
const RAFT_ELECTION_TIMEOUT: u64 = 25;
/// One second, in ticks.
const SECOND: u64 = 25;
/// How long a client waits for its command to be applied before it tries
/// another server.
const CLIENT_WAIT: u64 = 25;

struct InFlight {
    from: usize,
    from_epoch: u64,
    to: usize,
    deliver_at: u64,
    msg: Message,
}

enum Req {
    Get(GetRequest),
    PutAppend(PutAppendRequest),
}

struct Waiting {
    server: usize,
    epoch: u64,
    index: u64,
    deadline: u64,
}

/// A client operation in progress: the clerk that issued it, the request,
/// the position in the clerk's list of the server it goes to next, and what
/// it is waiting for.
struct ActiveOp {
    ck: Clerk<usize>,
    req: Req,
    pos: usize,
    waiting: Option<Waiting>,
    result: Option<String>,
}

impl ActiveOp {
    fn get(mut ck: Clerk<usize>, key: &str) -> ActiveOp {
        let req = Req::Get(ck.get(key.to_owned()));
        let pos = ck.leader();
        ActiveOp { ck, req, pos, waiting: None, result: None }
    }

    fn put(mut ck: Clerk<usize>, key: &str, value: &str) -> ActiveOp {
        let req = Req::PutAppend(ck.put(key.to_owned(), value.to_owned()));
        let pos = ck.leader();
        ActiveOp { ck, req, pos, waiting: None, result: None }
    }

    fn append(mut ck: Clerk<usize>, key: &str, value: &str) -> ActiveOp {
        let req = Req::PutAppend(ck.append(key.to_owned(), value.to_owned()));
        let pos = ck.leader();
        ActiveOp { ck, req, pos, waiting: None, result: None }
    }

    fn done(&self) -> bool {
        self.result.is_some()
    }

    fn ident(&self) -> (String, u64) {
        match &self.req {
            Req::Get(a) => (a.name.clone(), a.seq),
            Req::PutAppend(a) => (a.name.clone(), a.seq),
        }
    }

    /// Hands the reply of the server at `pos` (or its absence) to the clerk.
    fn on_reply(&mut self, wrong_leader: bool, value: Option<String>) {
        let from = self.pos;
        match &self.req {
            Req::Get(_) => {
                let reply = value.map(|v| GetReply { wrong_leader, err: String::new(), value: v });
                let reply = if wrong_leader {
                    Some(GetReply { wrong_leader, err: String::new(), value: String::new() })
                } else {
                    reply
                };
                match self.ck.on_get_reply(from, reply.as_ref()) {
                    Next::Done(v) => self.result = Some(v),
                    Next::Retry(j) => self.pos = j,
                }
            }
            Req::PutAppend(_) => {
                let reply = if wrong_leader || value.is_some() {
                    Some(PutAppendReply { wrong_leader, err: String::new() })
                } else {
                    None
                };
                match self.ck.on_put_append_reply(from, reply.as_ref()) {
                    Next::Done(()) => self.result = Some(String::new()),
                    Next::Retry(j) => self.pos = j,
                }
            }
        }
    }
}

struct Config {
    n: usize,
    nodes: Vec<Option<Node<SimplePersister>>>,
    epochs: Vec<u64>,
    connected: Vec<bool>,
    groups: Vec<usize>,
    saved: Vec<(Vec<u8>, Vec<u8>)>,
    applied: Vec<HashMap<u64, Applied>>,
    in_flight: Vec<InFlight>,
    reliable: bool,
    maxraftstate: Option<usize>,
    now: u64,
    next_client_id: usize,
    ops: usize,
}

impl Config {
    fn new(n: usize, unreliable: bool, maxraftstate: Option<usize>) -> Config {
        let mut cfg = Config {
            n,
            nodes: (0..n).map(|_| None).collect(),
            epochs: vec![0; n],
            connected: vec![false; n],
            groups: vec![0; n],
            saved: vec![(Vec::new(), Vec::new()); n],
            applied: (0..n).map(|_| HashMap::new()).collect(),
            in_flight: Vec::new(),
            reliable: !unreliable,
            maxraftstate,
            now: 0,
            next_client_id: 0,
            ops: 0,
        };
        for i in 0..n {
            cfg.start_server(i);
        }
        cfg.connect_all();
        cfg
    }

    fn begin(&self, description: &str) {
        println!("{} ...", description);
    }

    fn end(&self) {
        println!("  ... Passed -- {} ticks, {} ops", self.now, self.ops);
    }

    fn all(&self) -> Vec<usize> {
        (0..self.n).collect()
    }

    fn make_client(&mut self, servers: &[usize]) -> Clerk<usize> {
        self.next_client_id += 1;
        Clerk::new(format!("client-{}", self.next_client_id), servers.to_vec())
    }

    fn connect_all(&mut self) {
        for i in 0..self.n {
            self.connected[i] = true;
            self.groups[i] = 0;
        }
    }

    /// Splits the servers into two groups that cannot reach each other.
    fn partition(&mut self, p1: &[usize], p2: &[usize]) {
        for &i in p1 {
            self.groups[i] = 1;
        }
        for &i in p2 {
            self.groups[i] = 2;
        }
    }

    /// A majority and a minority that holds the current leader.
    fn make_partition(&mut self) -> (Vec<usize>, Vec<usize>) {
        let l = self.leader().unwrap_or(0);
        let mut p1 = Vec::new();
        let mut p2 = vec![l];
        for i in 0..self.n {
            if i == l {
                continue;
            }
            if p1.len() < self.n / 2 + 1 {
                p1.push(i);
            } else {
                p2.push(i);
            }
        }
        (p1, p2)
    }

    fn leader(&self) -> Option<usize> {
        (0..self.n).find(|&i| self.nodes[i].as_ref().map(|nd| nd.is_leader()).unwrap_or(false))
    }

    fn shutdown_server(&mut self, i: usize) {
        self.connected[i] = false;
        if let Some(mut node) = self.nodes[i].take() {
            node.kill();
            let p = node.server.persister();
            self.saved[i] = (p.raft_state(), p.snapshot());
        }
        self.epochs[i] += 1;
        self.applied[i].clear();
    }

    fn start_server(&mut self, i: usize) {
        self.shutdown_server(i);
        let mut p = SimplePersister::new();
        p.save_state_and_snapshot(self.saved[i].0.clone(), self.saved[i].1.clone());
        let kv = KvServer::new(self.n, i, p, self.maxraftstate).expect("saved state does not decode");
        self.nodes[i] = Some(Node::new(kv));
        self.connected[i] = true;
    }

    fn log_size(&self) -> usize {
        (0..self.n)
            .map(|i| match &self.nodes[i] {
                Some(node) => node.server.raft_state_size(),
                None => self.saved[i].0.len(),
            })
            .max()
            .unwrap()
    }

    fn snapshot_size(&self) -> usize {
        (0..self.n)
            .map(|i| match &self.nodes[i] {
                Some(node) => node.server.persister().snapshot().len(),
                None => self.saved[i].1.len(),
            })
            .max()
            .unwrap()
    }

    fn send(&mut self, from: usize, out: Vec<Envelope>) {
        let mut rng = rand::thread_rng();
        for env in out {
            if !self.reliable && rng.gen_range(0, 10) == 0 {
                continue;
            }
            let delay = if self.reliable { 1 } else { rng.gen_range(1, 4) };
            self.in_flight.push(InFlight {
                from,
                from_epoch: self.epochs[from],
                to: env.to,
                deliver_at: self.now + delay,
                msg: env.msg,
            });
        }
    }

    fn apply(&mut self, i: usize) {
        if let Some(node) = self.nodes[i].as_mut() {
            for a in node.server.apply_committed() {
                self.applied[i].insert(a.index, a);
            }
        }
    }

    /// Advances the servers and the network by one tick.
    fn tick(&mut self) {
        self.now += 1;
        for i in 0..self.n {
            let out = match self.nodes[i].as_mut() {
                Some(node) => node.server.tick(),
                None => continue,
            };
            if self.connected[i] {
                self.send(i, out);
            }
            self.apply(i);
        }
        let now = self.now;
        let (due, rest): (Vec<InFlight>, Vec<InFlight>) =
            self.in_flight.drain(..).partition(|m| m.deliver_at <= now);
        self.in_flight = rest;
        for m in due {
            if !self.connected[m.from]
                || !self.connected[m.to]
                || self.groups[m.from] != self.groups[m.to]
                || self.epochs[m.from] != m.from_epoch
                || self.nodes[m.to].is_none()
            {
                continue;
            }
            let out = self.nodes[m.to].as_mut().unwrap().server.step(m.from, m.msg);
            self.send(m.to, out);
            self.apply(m.to);
        }
    }

    /// Moves a client operation one step: it sends its request, or looks
    /// whether what it waits for has been applied.
    fn step_op(&mut self, op: &mut ActiveOp) {
        if op.done() {
            return;
        }
        let mut rng = rand::thread_rng();
        if let Some(w) = op.waiting.take() {
            let alive = self.epochs[w.server] == w.epoch && self.nodes[w.server].is_some();
            let found = if alive { self.applied[w.server].get(&w.index) } else { None };
            match found {
                Some(a) => {
                    let (name, seq) = op.ident();
                    let answer = reply_for(a, &name, seq);
                    if !self.reliable && rng.gen_range(0, 10) == 0 {
                        op.on_reply(false, None);
                    } else {
                        match answer {
                            Some(v) => {
                                self.ops += 1;
                                op.on_reply(false, Some(v));
                            }
                            None => op.on_reply(true, None),
                        }
                    }
                }
                None => {
                    if alive && self.now < w.deadline {
                        op.waiting = Some(w);
                    } else {
                        op.on_reply(false, None);
                    }
                }
            }
            return;
        }
        let server = op.ck.servers[op.pos];
        if self.nodes[server].is_none() || (!self.reliable && rng.gen_range(0, 10) == 0) {
            op.on_reply(false, None);
            return;
        }
        let node = self.nodes[server].as_mut().unwrap();
        let started = match &op.req {
            Req::Get(a) => node.get(a),
            Req::PutAppend(a) => node.put_append(a),
        };
        match started {
            Ok((index, _)) => {
                op.waiting = Some(Waiting {
                    server,
                    epoch: self.epochs[server],
                    index,
                    deadline: self.now + CLIENT_WAIT,
                })
            }
            Err(_) => op.on_reply(true, None),
        }
    }

    /// Runs one operation to completion while the background operations
    /// move too.
    fn run_op(&mut self, mut op: ActiveOp, background: &mut [ActiveOp]) -> (Clerk<usize>, String) {
        let t0 = self.now;
        while !op.done() {
            if self.now - t0 > 12_000 {
                panic!("operation did not complete");
            }
            self.step_op(&mut op);
            for b in background.iter_mut() {
                self.step_op(b);
            }
            self.tick();
        }
        let r = op.result.take().unwrap();
        (op.ck, r)
    }
}

fn get(cfg: &mut Config, ck: Clerk<usize>, key: &str) -> (Clerk<usize>, String) {
    cfg.run_op(ActiveOp::get(ck, key), &mut [])
}

fn put(cfg: &mut Config, ck: Clerk<usize>, key: &str, value: &str) -> Clerk<usize> {
    cfg.run_op(ActiveOp::put(ck, key, value), &mut []).0
}

fn check(cfg: &mut Config, ck: Clerk<usize>, key: &str, value: &str) -> Clerk<usize> {
    let (ck, v) = get(cfg, ck, key);
    if v != value {
        panic!("get({:?}): expected:\n{:?}\nreceived:\n{:?}", key, value, v);
    }
    ck
}

/// One client of the generic test: it puts the empty value to its key, then
/// at random appends its next element or reads the key back, and checks
/// that what it reads is what it appended.
struct SimClient {
    cli: usize,
    key: String,
    last: String,
    j: usize,
    ck: Option<Clerk<usize>>,
    op: Option<(ActiveOp, bool)>,
}

impl SimClient {
    fn step(&mut self, cfg: &mut Config, may_start: bool) {
        let mut rng = rand::thread_rng();
        if let Some((op, is_get)) = self.op.as_mut() {
            cfg.step_op(op);
            if op.done() {
                let v = op.result.take().unwrap();
                if *is_get && v != self.last {
                    panic!(
                        "get wrong value, key {:?}, wanted:\n{:?}\n, got\n{:?}",
                        self.key, self.last, v
                    );
                }
                let (op, _) = self.op.take().unwrap();
                self.ck = Some(op.ck);
            }
            return;
        }
        if !may_start {
            return;
        }
        let ck = self.ck.take().unwrap();
        if rng.gen::<u32>() % 1000 < 500 {
            let nv = format!("x {} {} y", self.cli, self.j);
            self.last = next_value(std::mem::take(&mut self.last), &nv);
            self.j += 1;
            self.op = Some((ActiveOp::append(ck, &self.key, &nv), false));
        } else {
            self.op = Some((ActiveOp::get(ck, &self.key), true));
        }
    }

    fn idle(&self) -> bool {
        self.op.is_none()
    }
}

/// One or more clients submit appends and reads for five seconds; then the
/// appends of each client must all be in its key, in order. The network may
/// lose messages, the servers may crash and restart, the network may be
/// repartitioned meanwhile, and the Raft state may be bounded by snapshots.
fn generic_test(
    part: &str,
    nclients: usize,
    unreliable: bool,
    crash: bool,
    partitions: bool,
    maxraftstate: Option<usize>,
) {
    let mut title = "Test: ".to_owned();
    if unreliable {
        title += "unreliable net, ";
    }
    if crash {
        title += "restarts, ";
    }
    if partitions {
        title += "partitions, ";
    }
    if maxraftstate.is_some() {
        title += "snapshots, ";
    }
    if nclients > 1 {
        title += "many clients";
    } else {
        title += "one client";
    }
    title = format!("{} ({})", title, part);

    const NSERVERS: usize = 5;
    let mut cfg = Config::new(NSERVERS, unreliable, maxraftstate);
    cfg.begin(&title);
    let all = cfg.all();
    let mut ck = cfg.make_client(&all);
    let mut rng = rand::thread_rng();

    for _ in 0..3 {
        let mut clients: Vec<SimClient> = Vec::new();
        for cli in 0..nclients {
            let c = cfg.make_client(&all);
            let key = format!("{}", cli);
            let op = ActiveOp::put(c, &key, "");
            clients.push(SimClient {
                cli,
                key,
                last: String::new(),
                j: 0,
                ck: None,
                op: Some((op, false)),
            });
        }
        let start = cfg.now;
        let mut next_partition = if partitions { start + SECOND } else { u64::MAX };
        while cfg.now - start < 5 * SECOND {
            if cfg.now >= next_partition {
                let mut servers = cfg.all();
                servers.shuffle(&mut rng);
                let offset = rng.gen_range(0, cfg.n);
                cfg.partition(&servers[..offset], &servers[offset..]);
                next_partition = cfg.now + RAFT_ELECTION_TIMEOUT + rng.gen::<u64>() % (SECOND / 5);
            }
            for c in clients.iter_mut() {
                c.step(&mut cfg, true);
            }
            cfg.tick();
        }
        if partitions {
            cfg.connect_all();
            for _ in 0..RAFT_ELECTION_TIMEOUT {
                for c in clients.iter_mut() {
                    c.step(&mut cfg, false);
                }
                cfg.tick();
            }
        }
        if crash {
            for i in 0..NSERVERS {
                cfg.shutdown_server(i);
            }
            for _ in 0..RAFT_ELECTION_TIMEOUT {
                for c in clients.iter_mut() {
                    c.step(&mut cfg, false);
                }
                cfg.tick();
            }
            for i in 0..NSERVERS {
                cfg.start_server(i);
            }
            cfg.connect_all();
        }
        let t0 = cfg.now;
        while clients.iter().any(|c| !c.idle()) {
            if cfg.now - t0 > 12_000 {
                panic!("clients did not finish");
            }
            for c in clients.iter_mut() {
                c.step(&mut cfg, false);
            }
            cfg.tick();
        }
        for c in &clients {
            let (ck1, v) = get(&mut cfg, ck, &c.key);
            ck = ck1;
            if let Err(e) = check_clnt_appends(c.cli, v, c.j) {
                panic!("client {}: {:?}", c.cli, e);
            }
        }
        if let Some(maxraftstate) = maxraftstate {
            if cfg.log_size() > 2 * maxraftstate {
                panic!("logs were not trimmed ({} > 2*{})", cfg.log_size(), maxraftstate);
            }
        }
    }
    cfg.end();
}

#[derive(Clone, Copy, Debug, PartialEq)]
enum KvOp {
    Get,
    Put,
    Append,
}

#[derive(Clone, Debug)]
struct KvInput {
    op: KvOp,
    key: String,
    value: String,
}

#[derive(Clone, Debug)]
struct KvOutput {
    value: String,
}

/// A key/value store as a sequential object; histories split by key.
struct KvModel;

impl Model for KvModel {
    type State = String;
    type Input = KvInput;
    type Output = KvOutput;

    fn partition(
        &self,
        history: Vec<Operation<KvInput, KvOutput>>,
    ) -> Vec<Vec<Operation<KvInput, KvOutput>>> {
        let mut by_key: HashMap<String, Vec<Operation<KvInput, KvOutput>>> = HashMap::new();
        for op in history {
            by_key.entry(op.input.key.clone()).or_insert_with(Vec::new).push(op);
        }
        by_key.into_iter().map(|(_, ops)| ops).collect()
    }

    fn init(&self) -> String {
        String::new()
    }

    fn step(&self, state: &String, input: &KvInput, output: &KvOutput) -> (bool, String) {
        match input.op {
            KvOp::Get => (output.value == *state, state.clone()),
            KvOp::Put => (true, input.value.clone()),
            KvOp::Append => (true, state.clone() + &input.value),
        }
    }

    fn equal(&self, state1: &String, state2: &String) -> bool {
        state1 == state2
    }
}

/// Searches for an order of the operations, each taking effect between its
/// call and its return, in which the model accepts every output. Gives up,
/// and accepts, after `budget` steps of the search.
fn linearizable<M: Model>(model: &M, ops: &[Operation<M::Input, M::Output>], budget: &mut usize) -> bool
where
    M::State: Clone + std::hash::Hash + Eq,
{
    fn search<M: Model>(
        model: &M,
        ops: &[Operation<M::Input, M::Output>],
        done: &mut Vec<bool>,
        remaining: usize,
        state: M::State,
        seen: &mut HashSet<(Vec<bool>, M::State)>,
        budget: &mut usize,
    ) -> Option<bool>
    where
        M::State: Clone + std::hash::Hash + Eq,
    {
        if remaining == 0 {
            return Some(true);
        }
        if *budget == 0 {
            return None;
        }
        *budget -= 1;
        let first_return = (0..ops.len()).filter(|&i| !done[i]).map(|i| ops[i].finish).min().unwrap();
        for i in 0..ops.len() {
            if done[i] || ops[i].call > first_return {
                continue;
            }
            let (ok, next) = model.step(&state, &ops[i].input, &ops[i].output);
            if !ok {
                continue;
            }
            done[i] = true;
            if seen.insert((done.clone(), next.clone())) {
                match search(model, ops, done, remaining - 1, next, seen, budget) {
                    Some(true) => return Some(true),
                    None => return None,
                    Some(false) => {}
                }
            }
            done[i] = false;
        }
        Some(false)
    }
    let mut done = vec![false; ops.len()];
    let mut seen = HashSet::new();
    search(model, ops, &mut done, ops.len(), model.init(), &mut seen, budget).unwrap_or(true)
}

fn check_operations<M: Model>(model: M, history: Vec<Operation<M::Input, M::Output>>) -> bool
where
    M::State: Clone + std::hash::Hash + Eq,
{
    let mut budget = 2_000_000;
    model.partition(history).iter().all(|part| linearizable(&model, part, &mut budget))
}

/// A client of the linearizability test: it appends, puts or reads random
/// keys and records each operation with the ticks of its call and return.
struct LinClient {
    cli: usize,
    ck: Option<Clerk<usize>>,
    op: Option<(ActiveOp, KvInput, u64)>,
    j: usize,
}

impl LinClient {
    fn step(&mut self, cfg: &mut Config, nclients: usize, may_start: bool, history: &mut Vec<Operation<KvInput, KvOutput>>) {
        let mut rng = rand::thread_rng();
        if let Some((op, _, _)) = self.op.as_mut() {
            cfg.step_op(op);
            if op.done() {
                let (mut op, input, call) = self.op.take().unwrap();
                let v = op.result.take().unwrap();
                let output = KvOutput { value: if input.op == KvOp::Get { v } else { String::new() } };
                history.push(Operation { input, call: call as i64, output, finish: cfg.now as i64 });
                self.ck = Some(op.ck);
            }
            return;
        }
        if !may_start {
            return;
        }
        let ck = self.ck.take().unwrap();
        let key = format!("{}", rng.gen::<usize>() % nclients);
        let nv = format!("x {} {} y", self.cli, self.j);
        let (op, input) = if rng.gen::<usize>() % 1000 < 500 {
            self.j += 1;
            (ActiveOp::append(ck, &key, &nv), KvInput { op: KvOp::Append, key, value: nv })
        } else if rng.gen::<usize>() % 1000 < 100 {
            self.j += 1;
            (ActiveOp::put(ck, &key, &nv), KvInput { op: KvOp::Put, key, value: nv })
        } else {
            (ActiveOp::get(ck, &key), KvInput { op: KvOp::Get, key, value: String::new() })
        };
        self.op = Some((op, input, cfg.now));
    }
}

/// As `generic_test`, with clients on random keys, and at the end a check
/// that the whole history of operations is linearizable.
fn generic_test_linearizability(
    part: &str,
    nclients: usize,
    nservers: usize,
    unreliable: bool,
    crash: bool,
    partitions: bool,
    maxraftstate: Option<usize>,
) {
    let mut title = "Test: ".to_owned();
    if unreliable {
        title += "unreliable net, ";
    }
    if crash {
        title += "restarts, ";
    }
    if partitions {
        title += "partitions, ";
    }
    if maxraftstate.is_some() {
        title += "snapshots, ";
    }
    if nclients > 1 {
        title += "many clients";
    } else {
        title += "one client";
    }
    title = format!("{}, linearizability checks ({})", title, part);

    let mut cfg = Config::new(nservers, unreliable, maxraftstate);
    cfg.begin(&title);
    let all = cfg.all();
    let mut rng = rand::thread_rng();
    let mut history: Vec<Operation<KvInput, KvOutput>> = Vec::new();

    for _ in 0..3 {
        let mut clients: Vec<LinClient> = (0..nclients)
            .map(|cli| LinClient { cli, ck: Some(cfg.make_client(&all)), op: None, j: 0 })
            .collect();
        let start = cfg.now;
        let mut next_partition = if partitions { start + SECOND } else { u64::MAX };
        while cfg.now - start < 5 * SECOND {
            if cfg.now >= next_partition {
                let mut servers = cfg.all();
                servers.shuffle(&mut rng);
                let offset = rng.gen_range(0, cfg.n);
                cfg.partition(&servers[..offset], &servers[offset..]);
                next_partition = cfg.now + RAFT_ELECTION_TIMEOUT + rng.gen::<u64>() % (SECOND / 5);
            }
            for c in clients.iter_mut() {
                c.step(&mut cfg, nclients, true, &mut history);
            }
            cfg.tick();
        }
        if partitions {
            cfg.connect_all();
            for _ in 0..RAFT_ELECTION_TIMEOUT {
                for c in clients.iter_mut() {
                    c.step(&mut cfg, nclients, false, &mut history);
                }
                cfg.tick();
            }
        }
        if crash {
            for i in 0..nservers {
                cfg.shutdown_server(i);
            }
            for _ in 0..RAFT_ELECTION_TIMEOUT {
                for c in clients.iter_mut() {
                    c.step(&mut cfg, nclients, false, &mut history);
                }
                cfg.tick();
            }
            for i in 0..nservers {
                cfg.start_server(i);
            }
            cfg.connect_all();
        }
        let t0 = cfg.now;
        while clients.iter().any(|c| c.op.is_some()) {
            if cfg.now - t0 > 12_000 {
                panic!("clients did not finish");
            }
            for c in clients.iter_mut() {
                c.step(&mut cfg, nclients, false, &mut history);
            }
            cfg.tick();
        }
        if let Some(maxraftstate) = maxraftstate {
            if cfg.log_size() > 2 * maxraftstate {
                panic!("logs were not trimmed ({} > 2*{})", cfg.log_size(), maxraftstate);
            }
        }
    }
    cfg.end();

    if !check_operations(KvModel, history) {
        panic!("history is not linearizable");
    }
}

#[test]
fn linearizability_check_finds_a_stale_read() {
    let op = |op: KvOp, value: &str, out: &str, call: i64, finish: i64| Operation {
        input: KvInput { op, key: "k".to_owned(), value: value.to_owned() },
        call,
        output: KvOutput { value: out.to_owned() },
        finish,
    };
    // a put that returned before a read began must be seen by it
    let bad = vec![op(KvOp::Put, "a", "", 0, 1), op(KvOp::Get, "", "", 2, 3)];
    assert!(!check_operations(KvModel, bad));
    // overlapping, the read may come first
    let good = vec![op(KvOp::Put, "a", "", 0, 3), op(KvOp::Get, "", "", 1, 2)];
    assert!(check_operations(KvModel, good));
    let appends = vec![
        op(KvOp::Append, "x", "", 0, 5),
        op(KvOp::Append, "y", "", 1, 6),
        op(KvOp::Get, "", "yx", 7, 8),
    ];
    assert!(check_operations(KvModel, appends));
}

#[test]
fn test_basic_3a() {
    generic_test("3A", 1, false, false, false, None)
}

#[test]
fn test_concurrent_3a() {
    generic_test("3A", 5, false, false, false, None)
}

#[test]
fn test_unreliable_3a() {
    generic_test("3A", 5, true, false, false, None)
}

#[test]
fn test_unreliable_one_key_3a() {
    let nservers = 3;
    let mut cfg = Config::new(nservers, true, None);
    cfg.begin("Test: concurrent append to same key, unreliable (3A)");
    let all = cfg.all();
    let ck = cfg.make_client(&all);
    let ck = put(&mut cfg, ck, "k", "");

    let nclient = 5;
    let upto = 10;
    let mut clerks: Vec<Option<Clerk<usize>>> = (0..nclient).map(|_| Some(cfg.make_client(&all))).collect();
    let mut next: Vec<usize> = vec![0; nclient];
    let mut ops: Vec<Option<ActiveOp>> = (0..nclient).map(|_| None).collect();
    let t0 = cfg.now;
    while next.iter().any(|&n| n < upto) || ops.iter().any(|o| o.is_some()) {
        if cfg.now - t0 > 12_000 {
            panic!("appends did not complete");
        }
        for me in 0..nclient {
            if ops[me].is_none() && next[me] < upto {
                let c = clerks[me].take().unwrap();
                ops[me] = Some(ActiveOp::append(c, "k", &format!("x {} {} y", me, next[me])));
                next[me] += 1;
            }
            if let Some(op) = ops[me].as_mut() {
                cfg.step_op(op);
                if op.done() {
                    clerks[me] = Some(ops[me].take().unwrap().ck);
                }
            }
        }
        cfg.tick();
    }

    let counts = vec![upto; nclient];
    let (_, vx) = get(&mut cfg, ck, "k");
    if let Err(e) = check_concurrent_appends(vx, &counts) {
        panic!("{:?}", e);
    }
    cfg.end();
}

// Submit a request in the minority partition and check that the request
// does not go through until the partition heals. The leader of the first
// network ends up in the minority partition.
#[test]
fn test_one_partition_3a() {
    let nservers = 5;
    let mut cfg = Config::new(nservers, false, None);
    let all = cfg.all();
    let ck = cfg.make_client(&all);
    let ck = put(&mut cfg, ck, "1", "13");

    cfg.begin("Test: progress in majority (3A)");
    let (p1, p2) = cfg.make_partition();
    cfg.partition(&p1, &p2);

    let ckp1 = cfg.make_client(&p1);
    let ckp2a = cfg.make_client(&p2);
    let ckp2b = cfg.make_client(&p2);

    let ckp1 = put(&mut cfg, ckp1, "1", "14");
    let ckp1 = check(&mut cfg, ckp1, "1", "14");
    cfg.end();

    cfg.begin("Test: no progress in minority (3A)");
    let mut background = vec![ActiveOp::put(ckp2a, "1", "15"), ActiveOp::get(ckp2b, "1")];
    for _ in 0..SECOND {
        for b in background.iter_mut() {
            cfg.step_op(b);
        }
        cfg.tick();
        if background[0].done() {
            panic!("put in minority completed");
        }
        if background[1].done() {
            panic!("get in minority completed");
        }
    }
    let (ckp1, v) = cfg.run_op(ActiveOp::get(ckp1, "1"), &mut background);
    assert_eq!(v, "14");
    let (ckp1, _) = cfg.run_op(ActiveOp::put(ckp1, "1", "16"), &mut background);
    let (_, v) = cfg.run_op(ActiveOp::get(ckp1, "1"), &mut background);
    assert_eq!(v, "16");
    cfg.end();

    cfg.begin("Test: completion after heal (3A)");
    cfg.connect_all();
    for b in background.iter_mut() {
        b.ck.servers = all.clone();
    }
    let t0 = cfg.now;
    while !(background[0].done() && background[1].done()) {
        if cfg.now - t0 > RAFT_ELECTION_TIMEOUT + 3 * SECOND {
            panic!("put/get did not complete");
        }
        for b in background.iter_mut() {
            cfg.step_op(b);
        }
        cfg.tick();
    }
    check(&mut cfg, ck, "1", "15");
    cfg.end();
}

#[test]
fn test_persist_partition_unreliable_linearizable_3a() {
    generic_test_linearizability("3A", 15, 7, true, true, true, None)
}

#[test]
fn test_many_partitions_one_client_3a() {
    generic_test("3A", 1, false, false, true, None)
}

#[test]
fn test_many_partitions_many_clients_3a() {
    generic_test("3A", 5, false, false, true, None)
}

#[test]
fn test_persist_one_client_3a() {
    generic_test("3A", 1, false, true, false, None)
}

#[test]
fn test_persist_concurrent_3a() {
    generic_test("3A", 5, false, true, false, None)
}

#[test]
fn test_persist_concurrent_unreliable_3a() {
    generic_test("3A", 5, true, true, false, None)
}

#[test]
fn test_persist_partition_3a() {
    generic_test("3A", 5, false, true, true, None)
}

#[test]
fn test_persist_partition_unreliable_3a() {
    generic_test("3A", 5, true, true, true, None)
}

// If a server falls behind and rejoins, it catches up through a snapshot;
// the majority also discards committed entries while the minority is away.
#[test]
fn test_snapshot_rpc_3b() {
    let nservers = 3;
    let maxraftstate = 1000;
    let mut cfg = Config::new(nservers, false, Some(maxraftstate));
    let all = cfg.all();
    let ck = cfg.make_client(&all);

    cfg.begin("Test: InstallSnapshot RPC (3B)");
    let ck = put(&mut cfg, ck, "a", "A");
    let ck = check(&mut cfg, ck, "a", "A");

    cfg.partition(&[0, 1], &[2]);
    {
        let mut ck1 = cfg.make_client(&[0, 1]);
        for i in 0..50 {
            ck1 = put(&mut cfg, ck1, &format!("{}", i), &format!("{}", i));
        }
        for _ in 0..RAFT_ELECTION_TIMEOUT {
            cfg.tick();
        }
        put(&mut cfg, ck1, "b", "B");
    }
    if cfg.log_size() > 2 * maxraftstate {
        panic!("logs were not trimmed ({} > 2*{})", cfg.log_size(), maxraftstate);
    }

    cfg.connect_all();
    cfg.partition(&[0, 2], &[1]);
    {
        let ck1 = cfg.make_client(&[0, 2]);
        let ck1 = put(&mut cfg, ck1, "c", "C");
        let ck1 = put(&mut cfg, ck1, "d", "D");
        let ck1 = check(&mut cfg, ck1, "a", "A");
        let ck1 = check(&mut cfg, ck1, "b", "B");
        let ck1 = check(&mut cfg, ck1, "1", "1");
        check(&mut cfg, ck1, "49", "49");
    }

    cfg.connect_all();
    let ck = put(&mut cfg, ck, "e", "E");
    let ck = check(&mut cfg, ck, "c", "C");
    let ck = check(&mut cfg, ck, "e", "E");
    check(&mut cfg, ck, "1", "1");
    cfg.end();
}

// Snapshots stay small: 500 bytes is a generous bound for these operations.
#[test]
fn test_snapshot_size_3b() {
    let nservers = 3;
    let maxraftstate = 1000;
    let maxsnapshotstate = 500;
    let mut cfg = Config::new(nservers, false, Some(maxraftstate));
    let all = cfg.all();
    let mut ck = cfg.make_client(&all);

    cfg.begin("Test: snapshot size is reasonable (3B)");
    for _ in 0..200 {
        ck = put(&mut cfg, ck, "x", "0");
        ck = check(&mut cfg, ck, "x", "0");
        ck = put(&mut cfg, ck, "x", "1");
        ck = check(&mut cfg, ck, "x", "1");
    }
    if cfg.log_size() > 2 * maxraftstate {
        panic!("logs were not trimmed ({} > 2*{})", cfg.log_size(), maxraftstate);
    }
    if cfg.snapshot_size() > maxsnapshotstate {
        panic!("snapshot too large ({} > {})", cfg.snapshot_size(), maxsnapshotstate);
    }
    cfg.end();
}

#[test]
fn test_snapshot_recover_3b() {
    generic_test("3B", 1, false, true, false, Some(1000))
}

#[test]
fn test_snapshot_recover_many_clients_3b() {
    generic_test("3B", 20, false, true, false, Some(1000))
}

#[test]
fn test_snapshot_unreliable_3b() {
    generic_test("3B", 5, true, false, false, Some(1000))
}

#[test]
fn test_snapshot_unreliable_recover_3b() {
    generic_test("3B", 5, true, true, false, Some(1000))
}

#[test]
fn test_snapshot_unreliable_recover_concurrent_partition_3b() {
    generic_test("3B", 5, true, true, true, Some(1000))
}

#[test]
fn followers_refuse_requests() {
    let mut cfg = Config::new(3, false, None);
    for _ in 0..RAFT_ELECTION_TIMEOUT * 2 {
        cfg.tick();
    }
    let leader = cfg.leader().expect("no leader");
    let follower = (leader + 1) % 3;
    let arg = GetRequest { key: "k".to_owned(), name: "c".to_owned(), seq: 1 };
    assert!(cfg.nodes[follower].as_mut().unwrap().get(&arg).is_err());
    assert!(cfg.nodes[leader].as_mut().unwrap().get(&arg).is_ok());
    let arg = PutAppendRequest {
        key: "k".to_owned(),
        value: "v".to_owned(),
        op: OpKind::Put,
        name: "c".to_owned(),
        seq: 2,
    };
    assert!(cfg.nodes[follower].as_mut().unwrap().put_append(&arg).is_err());
}

