//! The client of the key/value service.
//!
//! A clerk numbers its operations, so that servers apply each once however
//! often it is sent, and remembers which server answered last, to ask that
//! one first. It tries the servers in turn until one that leads answers.
use vstd::prelude::*;
use super::command::OpKind;
use super::server::{GetReply, GetRequest, PutAppendReply, PutAppendRequest};

verus! {

/// A client of the service, with a handle for each server, the server to
/// ask first, and the number of its last operation.
pub struct Clerk<S> {
    pub name: String,
    pub servers: Vec<S>,
    pub leader: usize,
    pub seq: u64,
}

/// What to do after a reply: the operation is done, or it goes to the
/// server given.
pub enum Next<T> {
    Done(T),
    Retry(usize),
}

impl<S> Clerk<S> {
    /// A clerk that has sent nothing and asks the first server first.
    pub fn new(name: String, servers: Vec<S>) -> (ck: Clerk<S>)
        ensures
            ck.name == name,
            ck.servers == servers,
            ck.leader == 0,
            ck.seq == 0,
    {
        Clerk { name, servers, leader: 0, seq: 0 }
    }

    /// The server to send the next request to.
    pub fn leader(&self) -> (i: usize)
        ensures
            i == self.leader,
    {
        self.leader
    }

    /// A request to read `key`, numbered after the last operation. The
    /// value is empty when the key has none.
    pub fn get(&mut self, key: String) -> (arg: GetRequest)
        requires
            old(self).seq < u64::MAX,
        ensures
            arg.key == key,
            arg.name@ == old(self).name@,
            arg.seq == old(self).seq + 1,
            final(self).seq == arg.seq,
            final(self).leader == old(self).leader,
            final(self).name == old(self).name,
            final(self).servers == old(self).servers,
    {
        self.seq = self.seq + 1;
        GetRequest { key, name: self.name.clone(), seq: self.seq }
    }

    /// A request shared by put and append.
    fn put_append(&mut self, op: OpKind, key: String, value: String) -> (arg: PutAppendRequest)
        requires
            old(self).seq < u64::MAX,
        ensures
            arg.key == key,
            arg.value == value,
            arg.op == op,
            arg.name@ == old(self).name@,
            arg.seq == old(self).seq + 1,
            final(self).seq == arg.seq,
            final(self).leader == old(self).leader,
            final(self).name == old(self).name,
            final(self).servers == old(self).servers,
    {
        self.seq = self.seq + 1;
        PutAppendRequest { key, value, op, name: self.name.clone(), seq: self.seq }
    }

    /// A request to set `key` to `value`.
    pub fn put(&mut self, key: String, value: String) -> (arg: PutAppendRequest)
        requires
            old(self).seq < u64::MAX,
        ensures
            arg.key == key,
            arg.value == value,
            arg.op == OpKind::Put,
            arg.name@ == old(self).name@,
            arg.seq == old(self).seq + 1,
            final(self).seq == arg.seq,
            final(self).leader == old(self).leader,
            final(self).name == old(self).name,
            final(self).servers == old(self).servers,
    {
        self.put_append(OpKind::Put, key, value)
    }

    /// A request to append `value` to the value of `key`.
    pub fn append(&mut self, key: String, value: String) -> (arg: PutAppendRequest)
        requires
            old(self).seq < u64::MAX,
        ensures
            arg.key == key,
            arg.value == value,
            arg.op == OpKind::Append,
            arg.name@ == old(self).name@,
            arg.seq == old(self).seq + 1,
            final(self).seq == arg.seq,
            final(self).leader == old(self).leader,
            final(self).name == old(self).name,
            final(self).servers == old(self).servers,
    {
        self.put_append(OpKind::Append, key, value)
    }

    /// The server after `i`, in turn.
    pub fn next_server(&self, i: usize) -> (j: usize)
        requires
            i < self.servers.len(),
        ensures
            j == (i + 1) % (self.servers.len() as int),
            j < self.servers.len(),
    {
        let n = self.servers.len();
        if i + 1 == n {
            proof {
                vstd::arithmetic::div_mod::lemma_mod_self_0(n as int);
            }
            0
        } else {
            proof {
                vstd::arithmetic::div_mod::lemma_small_mod((i + 1) as nat, n as nat);
            }
            i + 1
        }
    }

    /// What to do after server `from` answered a read, or did not answer
    /// (`None`): a server that leads gives the value and is asked first from
    /// now on; otherwise the read goes to the next server.
    pub fn on_get_reply(&mut self, from: usize, reply: Option<&GetReply>) -> (next: Next<String>)
        requires
            old(self).servers.len() > 0,
            from < old(self).servers.len(),
        ensures
            final(self).seq == old(self).seq,
            final(self).name == old(self).name,
            final(self).servers == old(self).servers,
            match reply {
                Some(r) if !r.wrong_leader && r.err@.len() == 0 => {
                    &&& next matches Next::Done(v) && v == r.value
                    &&& final(self).leader == from
                },
                _ => {
                    &&& next matches Next::Retry(j) && j == (from + 1) % (old(self).servers.len() as int)
                    &&& final(self).leader == old(self).leader
                },
            },
    {
        match reply {
            Some(r) => {
                if !r.wrong_leader && r.err.as_str().is_empty() {
                    self.leader = from;
                    return Next::Done(r.value.clone());
                }
            },
            None => {},
        }
        Next::Retry(self.next_server(from))
    }

    /// What to do after server `from` answered a put or an append, or did
    /// not answer, as for a read.
    pub fn on_put_append_reply(&mut self, from: usize, reply: Option<&PutAppendReply>) -> (next:
        Next<()>)
        requires
            old(self).servers.len() > 0,
            from < old(self).servers.len(),
        ensures
            final(self).seq == old(self).seq,
            final(self).name == old(self).name,
            final(self).servers == old(self).servers,
            match reply {
                Some(r) if !r.wrong_leader && r.err@.len() == 0 => {
                    &&& next is Done
                    &&& final(self).leader == from
                },
                _ => {
                    &&& next matches Next::Retry(j) && j == (from + 1) % (old(self).servers.len() as int)
                    &&& final(self).leader == old(self).leader
                },
            },
    {
        match reply {
            Some(r) => {
                if !r.wrong_leader && r.err.as_str().is_empty() {
                    self.leader = from;
                    return Next::Done(());
                }
            },
            None => {},
        }
        Next::Retry(self.next_server(from))
    }
}

} // verus!
