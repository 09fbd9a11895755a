//! The pieces of the key/value service on their own: command and snapshot
//! layouts, the state machine, the clerk and the append checks.
use talent_plan::kvraft::checks::{
    check_clnt_appends, check_concurrent_appends, next_value, AppendCheckError,
};
use talent_plan::kvraft::client::{Clerk, Next};
use talent_plan::kvraft::codec::{decode_frame, encode_frame};
use talent_plan::kvraft::command::{decode_command, encode_command, Command, OpKind};
use talent_plan::kvraft::errors::Error;
use talent_plan::kvraft::server::{reply_for, Applied, GetReply, KvServer, PutAppendReply};
use talent_plan::raft::persister::SimplePersister;
use talent_plan::kvraft::state::KvStateMachine;

fn cmd(client: &str, seq: u64, kind: OpKind, key: &str, value: &str) -> Command {
    Command {
        client: client.to_owned(),
        seq,
        kind,
        key: key.to_owned(),
        value: value.to_owned(),
    }
}

#[test]
fn frame_round_trip() {
    let fields = vec![vec![1u8, 2, 3], vec![], vec![9u8]];
    let b = encode_frame(&fields);
    assert_eq!(b.len(), 8 + 8 + 3 + 8 + 8 + 1);
    assert_eq!(&b[..8], &3u64.to_le_bytes());
    assert_eq!(decode_frame(&b), Some(fields));
    assert_eq!(decode_frame(&b[..b.len() - 1]), None);
    assert_eq!(decode_frame(&[]), None);
}

#[test]
fn command_round_trip() {
    let c = cmd("clerk-1", 7, OpKind::Append, "ключ", "value");
    let b = encode_command(&c);
    let d = decode_command(&b).unwrap();
    assert_eq!(d.client, "clerk-1");
    assert_eq!(d.seq, 7);
    assert_eq!(d.kind, OpKind::Append);
    assert_eq!(d.key, "ключ");
    assert_eq!(d.value, "value");
}

#[test]
fn command_decode_refuses_garbage() {
    assert!(decode_command(&[1, 2, 3]).is_none());
    // a frame of the wrong number of fields
    assert!(decode_command(&encode_frame(&vec![vec![0u8; 8]])).is_none());
    // an unknown kind
    let mut fields = vec![5u64.to_le_bytes().to_vec(), 1u64.to_le_bytes().to_vec()];
    fields.push(b"c".to_vec());
    fields.push(b"k".to_vec());
    fields.push(b"v".to_vec());
    assert!(decode_command(&encode_frame(&fields)).is_none());
    // bytes that are not UTF-8
    fields[0] = 1u64.to_le_bytes().to_vec();
    fields[3] = vec![0xff, 0xfe];
    assert!(decode_command(&encode_frame(&fields)).is_none());
    fields[3] = b"k".to_vec();
    assert!(decode_command(&encode_frame(&fields)).is_some());
}

#[test]
fn state_machine_put_append_get() {
    let mut m = KvStateMachine::new();
    assert_eq!(m.apply(&cmd("a", 1, OpKind::Get, "k", "")), "");
    assert_eq!(m.apply(&cmd("a", 2, OpKind::Put, "k", "x")), "");
    assert_eq!(m.apply(&cmd("a", 3, OpKind::Append, "k", "y")), "");
    assert_eq!(m.apply(&cmd("b", 1, OpKind::Get, "k", "")), "xy");
    assert_eq!(m.get(&"k".to_owned()), "xy");
    assert_eq!(m.get(&"other".to_owned()), "");
    assert_eq!(m.last_seq(&"a".to_owned()), Some(3));
    assert_eq!(m.last_seq(&"b".to_owned()), None);
}

#[test]
fn state_machine_ignores_retries() {
    let mut m = KvStateMachine::new();
    let c = cmd("a", 1, OpKind::Append, "k", "x");
    m.apply(&c);
    m.apply(&c);
    assert_eq!(m.get(&"k".to_owned()), "x");
    m.apply(&cmd("b", 1, OpKind::Append, "k", "y"));
    m.apply(&c);
    assert_eq!(m.get(&"k".to_owned()), "xy");
    // an older operation of the same client is ignored too
    m.apply(&cmd("a", 5, OpKind::Put, "k", "z"));
    m.apply(&cmd("a", 4, OpKind::Put, "k", "old"));
    assert_eq!(m.get(&"k".to_owned()), "z");
}

#[test]
fn snapshot_round_trip() {
    let mut m = KvStateMachine::new();
    m.apply(&cmd("a", 1, OpKind::Put, "k1", "v1"));
    m.apply(&cmd("b", 4, OpKind::Put, "k2", "v2"));
    m.apply(&cmd("a", 2, OpKind::Append, "k1", "!"));
    let b = m.encode();
    let mut d = KvStateMachine::decode(&b).unwrap();
    assert_eq!(d.get(&"k1".to_owned()), "v1!");
    assert_eq!(d.get(&"k2".to_owned()), "v2");
    assert_eq!(d.last_seq(&"a".to_owned()), Some(2));
    assert_eq!(d.last_seq(&"b".to_owned()), Some(4));
    d.apply(&cmd("b", 4, OpKind::Put, "k2", "again"));
    assert_eq!(d.get(&"k2".to_owned()), "v2");
    assert!(KvStateMachine::decode(&b[..b.len() - 1]).is_none());
    assert!(KvStateMachine::decode(&encode_frame(&vec![])).is_none());
    let empty = KvStateMachine::new().encode();
    assert_eq!(KvStateMachine::decode(&empty).unwrap().get(&"k1".to_owned()), "");
}

#[test]
fn clerk_numbers_operations_and_rotates_servers() {
    let mut ck = Clerk::new("me".to_owned(), vec![10usize, 11, 12]);
    assert_eq!(ck.leader(), 0);
    let g = ck.get("k".to_owned());
    assert_eq!((g.key.as_str(), g.name.as_str(), g.seq), ("k", "me", 1));
    let p = ck.put("k".to_owned(), "v".to_owned());
    assert_eq!((p.op, p.seq), (OpKind::Put, 2));
    let a = ck.append("k".to_owned(), "w".to_owned());
    assert_eq!((a.op, a.seq, a.value.as_str()), (OpKind::Append, 3, "w"));
    assert_eq!(ck.next_server(0), 1);
    assert_eq!(ck.next_server(2), 0);
    let wrong = GetReply { wrong_leader: true, err: String::new(), value: String::new() };
    assert!(matches!(ck.on_get_reply(2, Some(&wrong)), Next::Retry(0)));
    assert!(matches!(ck.on_get_reply(1, None), Next::Retry(2)));
    let ok = GetReply { wrong_leader: false, err: String::new(), value: "v".to_owned() };
    match ck.on_get_reply(2, Some(&ok)) {
        Next::Done(v) => assert_eq!(v, "v"),
        Next::Retry(_) => panic!("a leader's answer is final"),
    }
    assert_eq!(ck.leader(), 2);
    let failed = PutAppendReply { wrong_leader: false, err: "timeout".to_owned() };
    assert!(matches!(ck.on_put_append_reply(2, Some(&failed)), Next::Retry(0)));
    assert_eq!(ck.leader(), 2);
    let done = PutAppendReply { wrong_leader: false, err: String::new() };
    assert!(matches!(ck.on_put_append_reply(0, Some(&done)), Next::Done(())));
    assert_eq!(ck.leader(), 0);
}

#[test]
fn reply_for_matches_client_and_number() {
    let a = Applied { index: 3, client: "c".to_owned(), seq: 2, reply: "v".to_owned() };
    assert_eq!(reply_for(&a, &"c".to_owned(), 2), Some("v".to_owned()));
    assert_eq!(reply_for(&a, &"c".to_owned(), 3), None);
    assert_eq!(reply_for(&a, &"d".to_owned(), 2), None);
}

#[test]
fn error_message() {
    assert_eq!(Error::NoLeader.message(), "NoLeader");
}

#[test]
fn next_value_appends() {
    assert_eq!(next_value("x 0 0 y".to_owned(), "x 0 1 y"), "x 0 0 yx 0 1 y");
    assert_eq!(next_value(String::new(), ""), "");
}

#[test]
fn check_clnt_appends_accepts_ordered_elements() {
    let v = "x 3 0 yx 4 0 yx 3 1 yx 3 2 y".to_owned();
    assert_eq!(check_clnt_appends(3, v.clone(), 3), Ok(()));
    assert_eq!(check_clnt_appends(4, v.clone(), 1), Ok(()));
    assert_eq!(check_clnt_appends(3, v, 0), Ok(()));
}

#[test]
fn check_clnt_appends_finds_each_fault() {
    assert_eq!(
        check_clnt_appends(1, "x 1 0 y".to_owned(), 2),
        Err(AppendCheckError::Missing { client: 1, index: 1 })
    );
    assert_eq!(
        check_clnt_appends(1, "x 1 0 yx 1 0 y".to_owned(), 1),
        Err(AppendCheckError::Duplicate { client: 1, index: 0 })
    );
    assert_eq!(
        check_clnt_appends(1, "x 1 1 yx 1 0 y".to_owned(), 2),
        Err(AppendCheckError::WrongOrder { client: 1, index: 1 })
    );
    // the first fault wins
    assert_eq!(
        check_clnt_appends(12, "x 12 1 yx 12 1 y".to_owned(), 2),
        Err(AppendCheckError::Missing { client: 12, index: 0 })
    );
}

#[test]
fn check_concurrent_appends_checks_every_client() {
    let v = "x 0 0 yx 1 0 yx 0 1 yx 1 1 y".to_owned();
    assert_eq!(check_concurrent_appends(v.clone(), &[2, 2]), Ok(()));
    assert_eq!(
        check_concurrent_appends(v.clone(), &[2, 3]),
        Err(AppendCheckError::Missing { client: 1, index: 2 })
    );
    assert_eq!(
        check_concurrent_appends(v, &[3, 3]),
        Err(AppendCheckError::Missing { client: 0, index: 2 })
    );
    assert_eq!(check_concurrent_appends(String::new(), &[]), Ok(()));
}

#[test]
fn a_new_leader_commits_a_barrier_of_its_term() {
    let mut kv = KvServer::new(1, 0, SimplePersister::new(), None).unwrap();
    let mut ticks = 0;
    while !kv.get_state().is_leader() {
        assert!(kv.tick().is_empty());
        ticks += 1;
        assert!(ticks <= 20, "a lone server elects itself");
    }
    assert!(kv.apply_committed().is_empty());
    kv.tick();
    let applied = kv.apply_committed();
    assert_eq!(applied.len(), 1);
    assert_eq!((applied[0].index, applied[0].client.as_str(), applied[0].seq), (1, "", 0));
    assert_eq!(applied[0].reply, "");
    // the barrier is offered once per term
    kv.tick();
    assert!(kv.apply_committed().is_empty());
    let (index, term) = kv.start(&cmd("c", 1, OpKind::Put, "k", "v")).unwrap();
    assert_eq!((index, term), (2, kv.get_state().term()));
}
