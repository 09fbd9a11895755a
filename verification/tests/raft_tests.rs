//! Raft scenarios run on a simulated network: every tick of the simulation
//! stands for forty milliseconds, so that heartbeats every three ticks stay
//! under ten RPCs a second between two peers; every node is ticked once per
//! tick, and
//! messages are delivered after a short delay or, on an unreliable network,
//! sometimes lost.
use std::collections::HashMap;

use rand::Rng;
use talent_plan::raft::codec::LogEntry;
use talent_plan::raft::errors::Error as RaftError;
use talent_plan::raft::messages::{AppendEntriesArgs, Envelope, Message, RequestVoteArgs};
use talent_plan::raft::node::{ApplyMsg, Node, Raft};
use talent_plan::raft::persister::{Persister, SimplePersister};

const SNAPSHOT_INTERVAL: u64 = 10;
/// One election timeout of the tester, in ticks.
const RAFT_ELECTION_TIMEOUT: u64 = 25;

fn ms(millis: u64) -> u64 {
    (millis + 39) / 40
}

#[derive(Clone, Copy, Debug, PartialEq)]
struct Entry {
    x: u64,
}

fn encode(e: Entry) -> Vec<u8> {
    e.x.to_le_bytes().to_vec()
}

fn decode(data: &[u8]) -> Entry {
    let mut b = [0u8; 8];
    b.copy_from_slice(&data[..8]);
    Entry { x: u64::from_le_bytes(b) }
}

fn random_entry(rng: &mut impl Rng) -> Entry {
    Entry { x: rng.gen::<u64>() }
}

struct InFlight {
    from: usize,
    from_epoch: u64,
    to: usize,
    deliver_at: u64,
    msg: Message,
}

struct Config {
    n: usize,
    rafts: Vec<Option<Node<SimplePersister>>>,
    epochs: Vec<u64>,
    connected: Vec<bool>,
    saved: Vec<(Vec<u8>, Vec<u8>)>,
    logs: Vec<HashMap<u64, Entry>>,
    max_index: u64,
    in_flight: Vec<InFlight>,
    reliable: bool,
    snapshot: bool,
    now: u64,
    rpc_count: usize,
    long_reordering: bool,
}

impl Config {
    fn new(n: usize) -> Config {
        Config::new_with(n, false, false)
    }

    fn new_with(n: usize, unreliable: bool, snapshot: bool) -> Config {
        let mut cfg = Config {
            n,
            rafts: (0..n).map(|_| None).collect(),
            epochs: vec![0; n],
            connected: vec![false; n],
            saved: vec![(Vec::new(), Vec::new()); n],
            logs: vec![HashMap::new(); n],
            max_index: 0,
            in_flight: Vec::new(),
            reliable: !unreliable,
            snapshot,
            now: 0,
            rpc_count: 0,
            long_reordering: false,
        };
        for i in 0..n {
            cfg.start1(i);
        }
        for i in 0..n {
            cfg.connect(i);
        }
        cfg
    }

    fn set_reliable(&mut self, reliable: bool) {
        self.reliable = reliable;
    }

    fn begin(&mut self, description: &str) {
        println!("{} ...", description);
    }

    fn end(&self) {
        println!("  ... Passed -- {} ticks, {} rpcs, {} commands", self.now, self.rpc_count, self.max_index);
    }

    fn send(&mut self, from: usize, out: Vec<Envelope>) {
        let mut rng = rand::thread_rng();
        for env in out {
            let request = match env.msg {
                Message::RequestVote(_) | Message::AppendEntries(_) | Message::InstallSnapshot(_) => true,
                _ => false,
            };
            if request {
                self.rpc_count += 1;
            }
            if !self.reliable && rng.gen_range(0, 10) == 0 {
                continue;
            }
            let mut delay = if self.reliable { 1 } else { rng.gen_range(1, 4) };
            // with long reordering, replies are sometimes held back long
            if self.long_reordering && !request && rng.gen_range(0, 900) < 600 {
                delay += ms(200 + rng.gen::<u64>() % (1 + rng.gen::<u64>() % 2000));
            }
            self.in_flight.push(InFlight {
                from,
                from_epoch: self.epochs[from],
                to: env.to,
                deliver_at: self.now + delay,
                msg: env.msg,
            });
        }
    }

    /// Hands the newly committed commands and snapshots of node `i` to the
    /// checker, as the service of node `i` would.
    fn apply(&mut self, i: usize) {
        let msgs = match self.rafts[i].as_mut() {
            Some(node) => node.take_apply_msgs(),
            None => return,
        };
        for m in msgs {
            match m {
                ApplyMsg::Command { data, index } => {
                    let entry = decode(&data);
                    for (j, log) in self.logs.iter().enumerate() {
                        if let Some(old) = log.get(&index) {
                            if *old != entry {
                                panic!(
                                    "commit index={:?} server={:?} {:?} != server={:?} {:?}",
                                    index, i, entry, j, old
                                );
                            }
                        }
                    }
                    let log = &mut self.logs[i];
                    if index > 1 && log.get(&(index - 1)).is_none() {
                        panic!("server {} apply out of order {}", i, index);
                    }
                    log.insert(index, entry);
                    if index > self.max_index {
                        self.max_index = index;
                    }
                    if self.snapshot && (index + 1) % SNAPSHOT_INTERVAL == 0 {
                        self.rafts[i].as_mut().unwrap().snapshot(index, &data);
                    }
                }
                ApplyMsg::Snapshot { data, term, index } => {
                    if self.snapshot
                        && self.rafts[i]
                            .as_mut()
                            .unwrap()
                            .cond_install_snapshot(term, index, &data)
                    {
                        let log = &mut self.logs[i];
                        log.clear();
                        log.insert(index, decode(&data));
                    }
                }
            }
        }
    }

    /// Advances the simulation by one tick.
    fn tick(&mut self) {
        self.now += 1;
        for i in 0..self.n {
            let out = match self.rafts[i].as_mut() {
                Some(node) => node.tick(),
                None => continue,
            };
            if self.connected[i] {
                self.send(i, out);
            }
            self.apply(i);
        }
        let now = self.now;
        let (due, rest): (Vec<InFlight>, Vec<InFlight>) =
            self.in_flight.drain(..).partition(|m| m.deliver_at <= now);
        self.in_flight = rest;
        for m in due {
            if !self.connected[m.from]
                || !self.connected[m.to]
                || self.epochs[m.from] != m.from_epoch
                || self.rafts[m.to].is_none()
            {
                continue;
            }
            let out = self.rafts[m.to].as_mut().unwrap().step(m.from, m.msg);
            self.send(m.to, out);
            self.apply(m.to);
        }
    }

    fn run(&mut self, ticks: u64) {
        for _ in 0..ticks {
            self.tick();
        }
    }

    fn crash1(&mut self, i: usize) {
        self.disconnect(i);
        if let Some(mut node) = self.rafts[i].take() {
            node.kill();
            let p = node.persister();
            self.saved[i] = (p.raft_state(), p.snapshot());
        }
        self.epochs[i] += 1;
    }

    fn start1(&mut self, i: usize) {
        self.crash1(i);
        let mut p = SimplePersister::new();
        p.save_state_and_snapshot(self.saved[i].0.clone(), self.saved[i].1.clone());
        let raft = Raft::new(self.n, i, p).expect("saved state does not decode");
        self.rafts[i] = Some(Node::new(raft));
    }

    fn start1_snapshot(&mut self, i: usize) {
        self.start1(i);
    }

    fn disconnect(&mut self, i: usize) {
        self.connected[i] = false;
    }

    fn connect(&mut self, i: usize) {
        self.connected[i] = true;
    }

    fn log_size(&self) -> usize {
        (0..self.n)
            .map(|i| match &self.rafts[i] {
                Some(node) => node.raft_state_size(),
                None => self.saved[i].0.len(),
            })
            .max()
            .unwrap()
    }

    fn n_committed(&self, index: u64) -> (usize, Option<Entry>) {
        let mut count = 0;
        let mut cmd = None;
        for log in &self.logs {
            let cmd1 = log.get(&index).cloned();
            if cmd1.is_some() {
                if count > 0 && cmd != cmd1 {
                    panic!("committed values do not match: index {:?}, {:?}, {:?}", index, cmd, cmd1);
                }
                count += 1;
                cmd = cmd1;
            }
        }
        (count, cmd)
    }

    fn check_one_leader(&mut self) -> usize {
        let mut rng = rand::thread_rng();
        let mut leaders: HashMap<u64, Vec<usize>> = HashMap::new();
        for _ in 0..10 {
            let wait = ms(450 + rng.gen::<u64>() % 100);
            self.run(wait);
            for i in 0..self.n {
                if self.connected[i] {
                    let state = self.rafts[i].as_ref().unwrap().get_state();
                    if state.is_leader() {
                        leaders.entry(state.term()).or_insert_with(Vec::new).push(i);
                    }
                }
            }
            let mut last_term_with_leader = 0;
            for (term, ls) in &leaders {
                if ls.len() > 1 {
                    panic!("term {} has {:?} (>1) leaders", term, ls);
                }
                if *term > last_term_with_leader {
                    last_term_with_leader = *term;
                }
            }
            if !leaders.is_empty() {
                return leaders[&last_term_with_leader][0];
            }
        }
        panic!("expected one leader, got none")
    }

    fn check_terms(&self) -> u64 {
        let mut term = 0;
        for i in 0..self.n {
            if self.connected[i] {
                let xterm = self.rafts[i].as_ref().unwrap().term();
                if term == 0 {
                    term = xterm;
                } else if term != xterm {
                    panic!("servers disagree on term");
                }
            }
        }
        term
    }

    fn check_no_leader(&self) {
        for i in 0..self.n {
            if self.connected[i] && self.rafts[i].as_ref().unwrap().is_leader() {
                panic!("expected no leader, but {} claims to be leader", i);
            }
        }
    }

    fn start_on(&mut self, i: usize, e: Entry) -> Option<(u64, u64)> {
        match self.rafts[i].as_mut() {
            Some(node) => node.start(encode(e)).ok(),
            None => None,
        }
    }

    fn wait(&mut self, index: u64, n: usize, start_term: Option<u64>) -> Option<Entry> {
        let mut to = 1;
        for _ in 0..30 {
            let (nd, _) = self.n_committed(index);
            if nd >= n {
                break;
            }
            self.run(to);
            if to < 100 {
                to *= 2;
            }
            if let Some(start_term) = start_term {
                for r in self.rafts.iter().flatten() {
                    if r.term() > start_term {
                        return None;
                    }
                }
            }
        }
        let (nd, cmd) = self.n_committed(index);
        if nd < n {
            panic!("only {} decided for index {}; wanted {}", nd, index, n);
        }
        cmd
    }

    fn one(&mut self, cmd: Entry, expected_servers: usize, retry: bool) -> u64 {
        let t0 = self.now;
        let mut starts = 0;
        while self.now - t0 < ms(10_000) {
            let mut index = None;
            for _ in 0..self.n {
                starts = (starts + 1) % self.n;
                if self.connected[starts] {
                    if let Some((index1, _)) = self.start_on(starts, cmd) {
                        index = Some(index1);
                        break;
                    }
                }
            }
            if let Some(index) = index {
                let t1 = self.now;
                while self.now - t1 < ms(2_000) {
                    let (nd, cmd1) = self.n_committed(index);
                    if nd > 0 && nd >= expected_servers && cmd1 == Some(cmd) {
                        return index;
                    }
                    self.run(ms(20));
                }
                if !retry {
                    panic!("one({:?}) failed to reach agreement", cmd);
                }
            } else {
                self.run(ms(50));
            }
        }
        panic!("one({:?}) failed to reach agreement", cmd);
    }
}

#[test]
fn test_initial_election_2a() {
    let servers = 3;
    let mut cfg = Config::new(servers);
    cfg.begin("Test (2A): initial election");
    cfg.check_one_leader();
    cfg.run(ms(50));
    let term1 = cfg.check_terms();
    cfg.run(2 * RAFT_ELECTION_TIMEOUT);
    let term2 = cfg.check_terms();
    if term1 != term2 {
        println!("warning: term changed even though there were no failures");
    }
    cfg.check_one_leader();
    cfg.end();
}

#[test]
fn test_reelection_2a() {
    let servers = 3;
    let mut cfg = Config::new(servers);
    cfg.begin("Test (2A): election after network failure");
    let leader1 = cfg.check_one_leader();
    cfg.disconnect(leader1);
    cfg.check_one_leader();
    cfg.connect(leader1);
    let leader2 = cfg.check_one_leader();
    cfg.disconnect(leader2);
    cfg.disconnect((leader2 + 1) % servers);
    cfg.run(2 * RAFT_ELECTION_TIMEOUT);
    cfg.check_no_leader();
    cfg.connect((leader2 + 1) % servers);
    cfg.check_one_leader();
    cfg.connect(leader2);
    cfg.check_one_leader();
    cfg.end();
}

#[test]
fn test_many_election_2a() {
    let servers = 7;
    let iters = 10;
    let mut cfg = Config::new(servers);
    cfg.begin("Test (2A): multiple elections");
    cfg.check_one_leader();
    let mut random = rand::thread_rng();
    for _ in 0..iters {
        let i1 = random.gen::<usize>() % servers;
        let i2 = random.gen::<usize>() % servers;
        let i3 = random.gen::<usize>() % servers;
        cfg.disconnect(i1);
        cfg.disconnect(i2);
        cfg.disconnect(i3);
        cfg.check_one_leader();
        cfg.connect(i1);
        cfg.connect(i2);
        cfg.connect(i3);
    }
    cfg.check_one_leader();
    cfg.end();
}

#[test]
fn test_basic_agree_2b() {
    let servers = 5;
    let mut cfg = Config::new(servers);
    cfg.begin("Test (2B): basic agreement");
    let iters = 3;
    for index in 1..=iters {
        let (nd, _) = cfg.n_committed(index);
        if nd > 0 {
            panic!("some have committed before start()");
        }
        let xindex = cfg.one(Entry { x: index * 100 }, servers, false);
        if xindex != index {
            panic!("got index {} but expected {}", xindex, index);
        }
    }
    cfg.end()
}

#[test]
fn test_fail_agree_2b() {
    let servers = 3;
    let mut cfg = Config::new(servers);
    cfg.begin("Test (2B): agreement despite follower disconnection");
    cfg.one(Entry { x: 101 }, servers, false);
    let leader = cfg.check_one_leader();
    cfg.disconnect((leader + 1) % servers);
    cfg.one(Entry { x: 102 }, servers - 1, false);
    cfg.one(Entry { x: 103 }, servers - 1, false);
    cfg.run(RAFT_ELECTION_TIMEOUT);
    cfg.one(Entry { x: 104 }, servers - 1, false);
    cfg.one(Entry { x: 105 }, servers - 1, false);
    cfg.connect((leader + 1) % servers);
    cfg.one(Entry { x: 106 }, servers, true);
    cfg.run(RAFT_ELECTION_TIMEOUT);
    cfg.one(Entry { x: 107 }, servers, true);
    cfg.end();
}

#[test]
fn test_rejoin_2b() {
    let servers = 3;
    let mut cfg = Config::new(servers);
    cfg.begin("Test (2B): rejoin of partitioned leader");
    cfg.one(Entry { x: 101 }, servers, true);
    let leader1 = cfg.check_one_leader();
    cfg.disconnect(leader1);
    let _ = cfg.start_on(leader1, Entry { x: 102 });
    let _ = cfg.start_on(leader1, Entry { x: 103 });
    let _ = cfg.start_on(leader1, Entry { x: 104 });
    cfg.one(Entry { x: 103 }, 2, true);
    let leader2 = cfg.check_one_leader();
    cfg.disconnect(leader2);
    cfg.connect(leader1);
    cfg.one(Entry { x: 104 }, 2, true);
    cfg.connect(leader2);
    cfg.one(Entry { x: 105 }, servers, true);
    cfg.end();
}

#[test]
fn test_persist1_2c() {
    let servers = 3;
    let mut cfg = Config::new(servers);
    cfg.begin("Test (2C): basic persistence");
    cfg.one(Entry { x: 11 }, servers, true);
    for i in 0..servers {
        cfg.start1(i);
    }
    for i in 0..servers {
        cfg.disconnect(i);
        cfg.connect(i);
    }
    cfg.one(Entry { x: 12 }, servers, true);
    let leader1 = cfg.check_one_leader();
    cfg.disconnect(leader1);
    cfg.start1(leader1);
    cfg.connect(leader1);
    cfg.one(Entry { x: 13 }, servers, true);
    let leader2 = cfg.check_one_leader();
    cfg.disconnect(leader2);
    cfg.one(Entry { x: 14 }, servers - 1, true);
    cfg.start1(leader2);
    cfg.connect(leader2);
    cfg.wait(4, servers, None);
    let i3 = (cfg.check_one_leader() + 1) % servers;
    cfg.disconnect(i3);
    cfg.one(Entry { x: 15 }, servers - 1, true);
    cfg.start1(i3);
    cfg.connect(i3);
    cfg.one(Entry { x: 16 }, servers, true);
    cfg.end();
}

#[test]
fn test_persist3_2c() {
    let servers = 3;
    let mut cfg = Config::new(servers);
    cfg.begin("Test (2C): partitioned leader and one follower crash, leader restarts");
    cfg.one(Entry { x: 101 }, 3, true);
    let leader = cfg.check_one_leader();
    cfg.disconnect((leader + 2) % servers);
    cfg.one(Entry { x: 102 }, 2, true);
    cfg.crash1((leader + 0) % servers);
    cfg.crash1((leader + 1) % servers);
    cfg.connect((leader + 2) % servers);
    cfg.start1((leader + 0) % servers);
    cfg.connect((leader + 0) % servers);
    cfg.one(Entry { x: 103 }, 2, true);
    cfg.start1((leader + 1) % servers);
    cfg.connect((leader + 1) % servers);
    cfg.one(Entry { x: 104 }, servers, true);
    cfg.end();
}

#[test]
fn test_fail_no_agree_2b() {
    let servers = 5;
    let mut cfg = Config::new(servers);
    cfg.begin("Test (2B): no agreement if too many followers disconnect");
    cfg.one(Entry { x: 10 }, servers, false);

    // 3 of 5 followers disconnect
    let leader = cfg.check_one_leader();
    cfg.disconnect((leader + 1) % servers);
    cfg.disconnect((leader + 2) % servers);
    cfg.disconnect((leader + 3) % servers);
    let (index, _) = cfg.start_on(leader, Entry { x: 20 }).expect("leader rejected start");
    if index != 2 {
        panic!("expected index 2, got {}", index);
    }
    cfg.run(2 * RAFT_ELECTION_TIMEOUT);
    let (n, _) = cfg.n_committed(index);
    if n > 0 {
        panic!("{} committed but no majority", n);
    }

    // repair
    cfg.connect((leader + 1) % servers);
    cfg.connect((leader + 2) % servers);
    cfg.connect((leader + 3) % servers);

    // the disconnected majority may have chosen a leader from among their
    // own ranks, forgetting index 2
    let leader2 = cfg.check_one_leader();
    let (index2, _) = cfg.start_on(leader2, Entry { x: 30 }).expect("leader2 rejected start");
    if !(2..=3).contains(&index2) {
        panic!("unexpected index {}", index2);
    }
    cfg.one(Entry { x: 1000 }, servers, true);
    cfg.end();
}

#[test]
fn test_concurrent_starts_2b() {
    let servers = 3;
    let mut cfg = Config::new(servers);
    cfg.begin("Test (2B): concurrent start()s");
    let mut success = false;
    'outer: for tried in 0..5 {
        if tried > 0 {
            // give the solution some time to settle
            cfg.run(ms(3000));
        }
        let leader = cfg.check_one_leader();
        let term = match cfg.start_on(leader, Entry { x: 1 }) {
            None => continue,
            Some((_, term)) => term,
        };
        let mut idxes = vec![];
        for ii in 0..5 {
            let idx = match cfg.start_on(leader, Entry { x: 100 + ii }) {
                None => None,
                Some((idx, term1)) => {
                    if term1 != term {
                        None
                    } else {
                        Some(idx)
                    }
                }
            };
            idxes.push(idx);
        }
        for j in 0..servers {
            if cfg.rafts[j].as_ref().unwrap().term() != term {
                // the term changed: cannot expect low RPC counts
                continue 'outer;
            }
        }
        let mut cmds = vec![];
        for index in idxes.into_iter().flatten() {
            if let Some(cmd) = cfg.wait(index, servers, Some(term)) {
                cmds.push(cmd.x);
            } else {
                // peers have moved on to later terms, so not all starts
                // can be expected to succeed
                continue;
            }
        }
        for ii in 0..5 {
            let x = 100 + ii;
            assert!(cmds.contains(&x), "cmd {} missing in {:?}", x, cmds);
        }
        success = true;
        break;
    }
    assert!(success, "term changed too often");
    cfg.end();
}

#[test]
fn test_backup_2b() {
    let servers = 5;
    let mut cfg = Config::new(servers);
    cfg.begin("Test (2B): leader backs up quickly over incorrect follower logs");
    let mut random = rand::thread_rng();
    cfg.one(random_entry(&mut random), servers, true);

    // put leader and one follower in a partition
    let leader1 = cfg.check_one_leader();
    cfg.disconnect((leader1 + 2) % servers);
    cfg.disconnect((leader1 + 3) % servers);
    cfg.disconnect((leader1 + 4) % servers);

    // submit lots of commands that won't commit
    for _ in 0..50 {
        let _ = cfg.start_on(leader1, random_entry(&mut random));
    }
    cfg.run(RAFT_ELECTION_TIMEOUT / 2);

    cfg.disconnect(leader1 % servers);
    cfg.disconnect((leader1 + 1) % servers);

    // allow other partition to recover
    cfg.connect((leader1 + 2) % servers);
    cfg.connect((leader1 + 3) % servers);
    cfg.connect((leader1 + 4) % servers);

    // lots of successful commands to new group
    for _ in 0..50 {
        cfg.one(random_entry(&mut random), 3, true);
    }

    // now another partitioned leader and one follower
    let leader2 = cfg.check_one_leader();
    let mut other = (leader1 + 2) % servers;
    if leader2 == other {
        other = (leader2 + 1) % servers;
    }
    cfg.disconnect(other);

    // lots more commands that won't commit
    for _ in 0..50 {
        let _ = cfg.start_on(leader2, random_entry(&mut random));
    }
    cfg.run(RAFT_ELECTION_TIMEOUT / 2);

    // bring original leader back to life
    for i in 0..servers {
        cfg.disconnect(i);
    }
    cfg.connect(leader1 % servers);
    cfg.connect((leader1 + 1) % servers);
    cfg.connect(other);

    // lots of successful commands to new group
    for _ in 0..50 {
        cfg.one(random_entry(&mut random), 3, true);
    }

    // now everyone
    for i in 0..servers {
        cfg.connect(i);
    }
    cfg.one(random_entry(&mut random), servers, true);
    cfg.end();
}

#[test]
fn test_count_2b() {
    const SERVERS: usize = 3;
    let mut cfg = Config::new(SERVERS);
    cfg.begin("Test (2B): RPC counts aren't too high");

    cfg.check_one_leader();
    let mut total1 = cfg.rpc_count;
    if !(1..=30).contains(&total1) {
        panic!("too many or few RPCs ({}) to elect initial leader", total1);
    }

    let mut total2 = 0;
    let mut success = false;
    'outer: for tried in 0..5 {
        if tried > 0 {
            // give the solution some time to settle
            cfg.run(ms(3000));
        }
        let leader = cfg.check_one_leader();
        total1 = cfg.rpc_count;

        let iters = 10;
        let (starti, term) = match cfg.start_on(leader, Entry { x: 1 }) {
            Some(p) => p,
            None => continue,
        };
        let mut cmds = vec![];
        let mut random = rand::thread_rng();
        for i in 1..iters + 2 {
            let x = random.gen::<u64>();
            cmds.push(x);
            match cfg.start_on(leader, Entry { x }) {
                Some((index1, term1)) => {
                    if term1 != term {
                        // the term changed while starting
                        continue 'outer;
                    }
                    if starti + i != index1 {
                        panic!("start failed");
                    }
                }
                None => continue 'outer,
            }
        }
        for i in 1..=iters {
            if let Some(ix) = cfg.wait(starti + i, SERVERS, Some(term)) {
                if ix.x != cmds[(i - 1) as usize] {
                    panic!("wrong value {:?} committed for index {}; expected {:?}", ix, starti + i, cmds);
                }
            }
        }
        let mut failed = false;
        for j in 0..SERVERS {
            if cfg.rafts[j].as_ref().unwrap().term() != term {
                // the term changed: cannot expect low RPC counts
                failed = true;
            }
        }
        total2 = cfg.rpc_count;
        if failed {
            continue 'outer;
        }
        if total2 - total1 > (iters as usize + 1 + 3) * 3 {
            panic!("too many RPCs ({}) for {} entries", total2 - total1, iters);
        }
        success = true;
        break;
    }
    if !success {
        panic!("term changed too often");
    }

    cfg.run(RAFT_ELECTION_TIMEOUT);
    let total3 = cfg.rpc_count;
    if total3 - total2 > 3 * 20 {
        panic!("too many RPCs ({}) for 1 second of idleness", total3 - total2);
    }
    cfg.end();
}

#[test]
fn test_persist2_2c() {
    let servers = 5;
    let mut cfg = Config::new(servers);
    cfg.begin("Test (2C): more persistence");
    let mut index = 1;
    for _ in 0..5 {
        cfg.one(Entry { x: 10 + index }, servers, true);
        index += 1;

        let leader1 = cfg.check_one_leader();
        cfg.disconnect((leader1 + 1) % servers);
        cfg.disconnect((leader1 + 2) % servers);

        cfg.one(Entry { x: 10 + index }, servers - 2, true);
        index += 1;

        cfg.disconnect(leader1 % servers);
        cfg.disconnect((leader1 + 3) % servers);
        cfg.disconnect((leader1 + 4) % servers);

        cfg.start1((leader1 + 1) % servers);
        cfg.start1((leader1 + 2) % servers);
        cfg.connect((leader1 + 1) % servers);
        cfg.connect((leader1 + 2) % servers);

        cfg.run(RAFT_ELECTION_TIMEOUT);

        cfg.start1((leader1 + 3) % servers);
        cfg.connect((leader1 + 3) % servers);

        cfg.one(Entry { x: 10 + index }, servers - 2, true);
        index += 1;

        cfg.connect((leader1 + 4) % servers);
        cfg.connect(leader1 % servers);
    }
    cfg.one(Entry { x: 1000 }, servers, true);
    cfg.end();
}

// The scenario of Figure 8 of the Raft paper, extended: each iteration asks
// the leader, if there is one, to insert a command; the leader may then fail
// soon (probably before committing it) or later (probably after). If too few
// servers are alive to form a majority, new ones are started. The leader of
// a new term may try to finish replicating entries that were not committed.
#[test]
fn test_figure_8_2c() {
    let servers = 5;
    let mut cfg = Config::new(servers);
    cfg.begin("Test (2C): Figure 8");
    let mut random = rand::thread_rng();
    cfg.one(random_entry(&mut random), 1, true);

    let mut nup = servers;
    for _iters in 0..1000 {
        let mut leader = None;
        for i in 0..servers {
            if cfg.start_on(i, random_entry(&mut random)).is_some() {
                leader = Some(i);
            }
        }
        if (random.gen::<usize>() % 1000) < 100 {
            let wait = random.gen::<u64>() % (RAFT_ELECTION_TIMEOUT / 2);
            cfg.run(wait);
        } else {
            let millis = random.gen::<u64>() % 13;
            cfg.run(ms(millis));
        }
        if let Some(leader) = leader {
            cfg.crash1(leader);
            nup -= 1;
        }
        if nup < 3 {
            let s = random.gen::<usize>() % servers;
            if cfg.rafts[s].is_none() {
                cfg.start1(s);
                cfg.connect(s);
                nup += 1;
            }
        }
    }
    for i in 0..servers {
        if cfg.rafts[i].is_none() {
            cfg.start1(i);
            cfg.connect(i);
        }
    }
    cfg.one(random_entry(&mut random), servers, true);
    cfg.end();
}

#[test]
fn test_unreliable_agree_2c() {
    let servers = 5;
    let mut cfg = Config::new_with(servers, true, false);
    cfg.begin("Test (2C): unreliable agreement");
    for iters in 1..50 {
        for j in 0..4 {
            cfg.one(Entry { x: (100 * iters) + j }, 1, true);
        }
        cfg.one(Entry { x: iters }, 1, true);
    }
    cfg.set_reliable(true);
    cfg.one(Entry { x: 100 }, servers, true);
    cfg.end();
}

#[test]
fn test_figure_8_unreliable_2c() {
    let servers = 5;
    let mut cfg = Config::new_with(servers, true, false);
    cfg.begin("Test (2C): Figure 8 (unreliable)");
    let mut random = rand::thread_rng();
    cfg.one(Entry { x: random.gen::<u64>() % 10000 }, 1, true);

    let mut nup = servers;
    for iters in 0..1000 {
        if iters == 200 {
            cfg.long_reordering = true;
        }
        let mut leader = None;
        for i in 0..servers {
            if cfg.start_on(i, Entry { x: random.gen::<u64>() % 10000 }).is_some() && cfg.connected[i] {
                leader = Some(i);
            }
        }
        if (random.gen::<usize>() % 1000) < 100 {
            let wait = random.gen::<u64>() % (RAFT_ELECTION_TIMEOUT / 2);
            cfg.run(wait);
        } else {
            let millis = random.gen::<u64>() % 13;
            cfg.run(ms(millis));
        }
        if let Some(leader) = leader {
            if (random.gen::<usize>() % 1000) < 500 {
                cfg.disconnect(leader);
                nup -= 1;
            }
        }
        if nup < 3 {
            let s = random.gen::<usize>() % servers;
            if !cfg.connected[s] {
                cfg.connect(s);
                nup += 1;
            }
        }
    }
    for i in 0..servers {
        if !cfg.connected[i] {
            cfg.connect(i);
        }
    }
    cfg.one(Entry { x: random.gen::<u64>() % 10000 }, servers, true);
    cfg.end();
}

/// A client of the churn test: it offers a value to every live node and
/// remembers it once some node has committed it at the index it was given.
struct ChurnClient {
    me: usize,
    values: Vec<u64>,
    pending: Option<(u64, u64, u64)>,
    sleep_until: u64,
}

fn internal_churn(unreliable: bool) {
    let servers = 5;
    let mut cfg = Config::new_with(servers, unreliable, false);
    if unreliable {
        cfg.begin("Test (2C): unreliable churn")
    } else {
        cfg.begin("Test (2C): churn")
    }
    let ncli = 3;
    let mut clients: Vec<ChurnClient> = (0..ncli)
        .map(|me| ChurnClient { me, values: vec![], pending: None, sleep_until: 0 })
        .collect();
    let mut random = rand::thread_rng();

    let step_clients = |cfg: &mut Config, clients: &mut Vec<ChurnClient>, rng: &mut rand::rngs::ThreadRng| {
        for c in clients.iter_mut() {
            if cfg.now < c.sleep_until {
                continue;
            }
            match c.pending {
                None => {
                    let x = rng.gen::<u64>();
                    let mut index = None;
                    for i in 0..cfg.n {
                        if let Some((index1, _)) = cfg.start_on(i, Entry { x }) {
                            index = Some(index1);
                        }
                    }
                    match index {
                        Some(index) => c.pending = Some((index, x, cfg.now)),
                        None => c.sleep_until = cfg.now + ms(79 + c.me as u64 * 17),
                    }
                }
                Some((index, x, since)) => {
                    let (nd, cmd) = cfg.n_committed(index);
                    if nd > 0 {
                        if cmd == Some(Entry { x }) {
                            c.values.push(x);
                        }
                        c.pending = None;
                    } else if cfg.now - since > ms(380) {
                        c.pending = None;
                    }
                }
            }
        }
    };

    for _iters in 0..20 {
        if (random.gen::<usize>() % 1000) < 200 {
            let i = random.gen::<usize>() % servers;
            cfg.disconnect(i);
        }
        if (random.gen::<usize>() % 1000) < 500 {
            let i = random.gen::<usize>() % servers;
            if cfg.rafts[i].is_none() {
                cfg.start1(i);
            }
            cfg.connect(i);
        }
        if (random.gen::<usize>() % 1000) < 200 {
            let i = random.gen::<usize>() % servers;
            if cfg.rafts[i].is_some() {
                cfg.crash1(i);
            }
        }
        for _ in 0..(RAFT_ELECTION_TIMEOUT * 7) / 10 {
            cfg.tick();
            step_clients(&mut cfg, &mut clients, &mut random);
        }
    }

    for _ in 0..RAFT_ELECTION_TIMEOUT {
        cfg.tick();
        step_clients(&mut cfg, &mut clients, &mut random);
    }
    cfg.set_reliable(true);
    for i in 0..servers {
        if cfg.rafts[i].is_none() {
            cfg.start1(i);
        }
        cfg.connect(i);
    }
    let mut values = vec![];
    for c in &mut clients {
        values.append(&mut c.values);
    }
    cfg.run(RAFT_ELECTION_TIMEOUT);

    let last_index = cfg.one(random_entry(&mut random), servers, true);
    let mut really = vec![];
    for index in 1..=last_index {
        let v = cfg.wait(index, servers, None).unwrap();
        really.push(v.x);
    }
    for v1 in &values {
        let mut ok = false;
        for v2 in &really {
            if v1 == v2 {
                ok = true;
            }
        }
        assert!(ok, "didn't find a value");
    }
    cfg.end()
}

#[test]
fn test_reliable_churn_2c() {
    internal_churn(false);
}

#[test]
fn test_unreliable_churn_2c() {
    internal_churn(true);
}

fn snap_common(name: &str, disconnect: bool, reliable: bool, crash: bool) {
    const MAX_LOG_SIZE: usize = 2000;
    let iters = 30;
    let servers = 3;
    let mut cfg = Config::new_with(servers, !reliable, true);
    cfg.begin(name);
    let mut random = rand::thread_rng();
    cfg.one(random_entry(&mut random), servers, true);
    let mut leader1 = cfg.check_one_leader();
    for i in 0..iters {
        let mut victim = (leader1 + 1) % servers;
        let mut sender = leader1;
        if i % 3 == 1 {
            sender = (leader1 + 1) % servers;
            victim = leader1;
        }
        if disconnect {
            cfg.disconnect(victim);
            cfg.one(random_entry(&mut random), servers - 1, true);
        }
        if crash {
            cfg.crash1(victim);
            cfg.one(random_entry(&mut random), servers - 1, true);
        }
        for _ in 0..=SNAPSHOT_INTERVAL {
            let _ = cfg.start_on(sender, random_entry(&mut random));
        }
        cfg.one(random_entry(&mut random), servers - 1, true);
        assert!(cfg.log_size() < MAX_LOG_SIZE, "log size too large");
        if disconnect {
            cfg.connect(victim);
            cfg.one(random_entry(&mut random), servers, true);
            leader1 = cfg.check_one_leader();
        }
        if crash {
            cfg.start1_snapshot(victim);
            cfg.connect(victim);
            cfg.one(random_entry(&mut random), servers, true);
            leader1 = cfg.check_one_leader();
        }
    }
    cfg.end();
}

#[test]
fn test_snapshot_basic_2d() {
    snap_common("Test (2D): snapshots basic", false, true, false);
}

#[test]
fn test_snapshot_install_2d() {
    snap_common("Test (2D): install snapshots (disconnect)", true, true, false);
}

#[test]
fn test_snapshot_install_unreliable_2d() {
    snap_common("Test (2D): install snapshots (disconnect+unreliable)", true, false, false);
}

#[test]
fn test_snapshot_install_crash_2d() {
    snap_common("Test (2D): install snapshots (crash)", false, true, true);
}

#[test]
fn test_snapshot_install_unreliable_crash_2d() {
    snap_common("Test (2D): install snapshots (unreliable+crash)", false, false, true);
}

#[test]
fn a_vote_request_is_granted_once_per_term() {
    let mut node = Node::new(Raft::new(3, 0, SimplePersister::new()).unwrap());
    let ask = |c: usize| Message::RequestVote(RequestVoteArgs { term: 1, candidate_id: c, last_log_index: 0, last_log_term: 0 });
    let granted = |out: Vec<Envelope>| match &out[0].msg {
        Message::RequestVoteReply(r) => r.vote_granted,
        _ => panic!("a vote request is answered with a vote reply"),
    };
    assert!(granted(node.step(1, ask(1))));
    assert!(!granted(node.step(2, ask(2))));
    // the same candidate asking again is granted again
    assert!(granted(node.step(1, ask(1))));
    assert_eq!(node.term(), 1);
}

#[test]
fn an_accepted_append_replaces_a_conflicting_tail() {
    let mut node = Node::new(Raft::new(3, 2, SimplePersister::new()).unwrap());
    let entry = |term: u64, d: u8| LogEntry { term, data: vec![d] };
    let append = |term: u64, prev: u64, prev_term: u64, entries: Vec<LogEntry>, commit: u64| {
        Message::AppendEntries(AppendEntriesArgs {
            term,
            leader_id: 0,
            prev_log_index: prev,
            prev_log_term: prev_term,
            entries,
            leader_commit: commit,
        })
    };
    let reply = |out: Vec<Envelope>| match &out[0].msg {
        Message::AppendEntriesReply(r) => (r.success, r.match_index),
        _ => panic!("an append is answered with an append reply"),
    };
    // entries 1 and 2 of term 1, none committed
    assert_eq!(reply(node.step(0, append(1, 0, 0, vec![entry(1, 10), entry(1, 11)], 0))), (true, 2));
    // a leader of term 2 holds a different entry 2: the tail is replaced
    assert_eq!(reply(node.step(1, append(2, 1, 1, vec![entry(2, 20), entry(2, 21)], 0))), (true, 3));
    // an append that does not match the entry before it is refused
    assert_eq!(reply(node.step(1, append(2, 3, 1, vec![], 0))).0, false);
    // a heartbeat that matches commits up to the leader's commit index
    assert_eq!(reply(node.step(1, append(2, 3, 2, vec![], 3))), (true, 3));
    let applied: Vec<(u64, Vec<u8>)> = node
        .take_apply_msgs()
        .into_iter()
        .map(|m| match m {
            ApplyMsg::Command { data, index } => (index, data),
            _ => panic!("no snapshot was sent"),
        })
        .collect();
    assert_eq!(applied, vec![(1, vec![10]), (2, vec![20]), (3, vec![21])]);
}

#[test]
fn a_restarted_node_resumes_its_saved_term() {
    let mut node = Node::new(Raft::new(3, 0, SimplePersister::new()).unwrap());
    let ask = Message::RequestVote(RequestVoteArgs { term: 3, candidate_id: 1, last_log_index: 0, last_log_term: 0 });
    node.step(1, ask);
    assert_eq!(node.term(), 3);
    assert_eq!(node.start(vec![1]), Err(RaftError::NotLeader));
    let mut p = SimplePersister::new();
    p.save_raft_state(node.persister().raft_state());
    let restarted = Node::new(Raft::new(3, 0, p).unwrap());
    assert_eq!(restarted.term(), 3);
    assert!(!restarted.is_leader());
}
