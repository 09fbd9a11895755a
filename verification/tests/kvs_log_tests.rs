//! The index of the log-structured store, the log generations, the
//! request server and the errors of the key/value store.
use talent_plan::kvs::common::{GetResponse, RemoveResponse, Request, Response, SetResponse};
use talent_plan::kvs::error::KvsError;
use talent_plan::kvs::gens::{gen_of_file_name, next_generation, sort_gens, stale_gens};
use talent_plan::kvs::kv::KvStore;
use talent_plan::kvs::log::{
    command_value, Command, CommandPos, LogIndex, LoggedCommand, COMPACTION_THRESHOLD,
};
use talent_plan::kvs::server::KvsServer;
use talent_plan::linearizability::model::{Operation, Value};

fn put(key: &str, pos: u64, new_pos: u64) -> LoggedCommand {
    LoggedCommand {
        cmd: Command::Put { key: key.to_owned(), value: "v".to_owned() },
        pos,
        new_pos,
    }
}

fn remove(key: &str, pos: u64, new_pos: u64) -> LoggedCommand {
    LoggedCommand { cmd: Command::Remove { key: key.to_owned() }, pos, new_pos }
}

#[test]
fn load_replays_a_log() {
    let mut ix = LogIndex::new(3);
    ix.load(1, &vec![put("a", 0, 10), put("b", 10, 25), put("a", 25, 31), remove("b", 31, 40)]);
    let a = ix.lookup("a").unwrap();
    assert_eq!((a.gen, a.pos, a.len), (1, 25, 6));
    assert!(ix.lookup("b").is_none());
    // the first put of a (10), the put of b (15) and the remove (9)
    assert_eq!(ix.uncompacted(), 34);
    assert_eq!(ix.current_gen(), 3);
    assert!(ix.contains_key("a"));
    assert!(!ix.contains_key("b"));
}

#[test]
fn remove_of_a_missing_key_is_refused() {
    let mut ix = LogIndex::new(1);
    match ix.record_remove("k", 0, 10) {
        Err(KvsError::KeyNotFound) => {}
        _ => panic!("a missing key cannot be removed"),
    }
    assert_eq!(ix.uncompacted(), 0);
}

#[test]
fn record_set_asks_for_compaction_past_the_threshold() {
    let mut ix = LogIndex::new(1);
    assert!(!ix.record_set("k".to_owned(), 0, COMPACTION_THRESHOLD));
    assert!(!ix.record_set("k".to_owned(), COMPACTION_THRESHOLD, COMPACTION_THRESHOLD + 1));
    assert_eq!(ix.uncompacted(), COMPACTION_THRESHOLD);
    assert!(ix.record_set("k".to_owned(), COMPACTION_THRESHOLD + 1, COMPACTION_THRESHOLD + 3));
    assert_eq!(ix.record_remove("k", COMPACTION_THRESHOLD + 3, COMPACTION_THRESHOLD + 4).unwrap(), true);
}

#[test]
fn compaction_lays_live_commands_end_to_end() {
    let mut ix = LogIndex::new(2);
    ix.load(1, &vec![put("a", 0, 10), put("b", 10, 25), put("a", 25, 31)]);
    let (cgen, moves) = ix.compact().unwrap();
    assert_eq!(cgen, 3);
    assert_eq!(ix.current_gen(), 4);
    assert_eq!(ix.uncompacted(), 0);
    assert_eq!(moves.len(), 2);
    let mut next = 0;
    for m in &moves {
        assert_eq!(m.to.gen, 3);
        assert_eq!(m.to.pos, next);
        assert_eq!(m.to.len, m.from.len);
        next += m.to.len;
        let now = ix.lookup(&m.key).unwrap();
        assert_eq!((now.gen, now.pos, now.len), (m.to.gen, m.to.pos, m.to.len));
    }
    assert_eq!(next, 6 + 15);
}

#[test]
fn compaction_moves_commands_in_key_order() {
    let mut ix = LogIndex::new(2);
    ix.load(1, &vec![put("zeta", 0, 5), put("alpha", 5, 9), put("mu", 9, 20), put("Beta", 20, 22)]);
    let (_, moves) = ix.compact().unwrap();
    let keys: Vec<&str> = moves.iter().map(|m| m.key.as_str()).collect();
    assert_eq!(keys, vec!["Beta", "alpha", "mu", "zeta"]);
    assert_eq!(moves[0].to.pos, 0);
    assert_eq!(moves[1].to.pos, 2);
}

#[test]
fn compaction_refuses_when_generations_or_offsets_run_out() {
    let mut ix = LogIndex::new(u64::MAX - 1);
    ix.load(u64::MAX - 1, &vec![put("a", 0, 10)]);
    match ix.compact() {
        Err(KvsError::StringError(_)) => {}
        _ => panic!("no generation is left for the compacted log"),
    }
    assert_eq!(ix.current_gen(), u64::MAX - 1);
    let mut ix = LogIndex::new(2);
    ix.load(1, &vec![put("a", 0, u64::MAX - 1), put("b", 0, 2)]);
    match ix.compact() {
        Err(KvsError::StringError(_)) => {}
        _ => panic!("the compacted log would not fit"),
    }
    assert_eq!(ix.current_gen(), 2);
    assert_eq!(ix.lookup("b").unwrap().len, 2);
}

#[test]
fn command_value_of_a_remove_is_an_error() {
    assert_eq!(command_value(Command::Put { key: "k".to_owned(), value: "v".to_owned() }).unwrap(), "v");
    match command_value(Command::Remove { key: "k".to_owned() }) {
        Err(KvsError::UnexpectedCommandType) => {}
        _ => panic!("a remove holds no value"),
    }
}

#[test]
fn command_pos_from_range() {
    let p = CommandPos::new(7, 10, 25);
    assert_eq!((p.gen, p.pos, p.len), (7, 10, 15));
}

#[test]
fn generations_of_file_names() {
    assert_eq!(gen_of_file_name("12.log"), Some(12));
    assert_eq!(gen_of_file_name("0.log"), Some(0));
    assert_eq!(gen_of_file_name("x.log"), None);
    assert_eq!(gen_of_file_name("12.txt"), None);
    assert_eq!(gen_of_file_name(".log"), None);
    assert_eq!(gen_of_file_name("99999999999999999999.log"), None);
}

#[test]
fn generations_sorted_next_and_stale() {
    let gens = sort_gens(vec![5, 1, 3, 3]);
    assert_eq!(gens, vec![1, 3, 3, 5]);
    assert_eq!(next_generation(&gens), Some(6));
    assert_eq!(next_generation(&vec![]), Some(1));
    assert_eq!(next_generation(&vec![u64::MAX]), None);
    assert_eq!(stale_gens(&gens, 4), vec![1, 3, 3]);
    assert_eq!(stale_gens(&gens, 1), Vec::<u64>::new());
}

#[test]
fn server_answers_requests() {
    let mut server = KvsServer::new(KvStore::new());
    match server.handle_get("k".to_owned()) {
        GetResponse::Found(None) => {}
        _ => panic!("no value yet"),
    }
    assert!(matches!(server.handle_set("k".to_owned(), "v".to_owned()), SetResponse::Done));
    match server.handle_get("k".to_owned()) {
        GetResponse::Found(Some(v)) => assert_eq!(v, "v"),
        _ => panic!("the value was set"),
    }
    assert!(matches!(server.handle_remove("k".to_owned()), RemoveResponse::Done));
    match server.handle_remove("k".to_owned()) {
        RemoveResponse::Failed(m) => assert_eq!(m, "Key not found"),
        _ => panic!("the key is gone"),
    }
    match server.respond(Request::Put { key: "a".to_owned(), value: "1".to_owned() }) {
        Response::Put => {}
        _ => panic!("a put succeeds"),
    }
    match server.respond(Request::Get { key: "a".to_owned() }) {
        Response::Get(Some(v)) => assert_eq!(v, "1"),
        _ => panic!("the value was put"),
    }
    match server.respond(Request::Remove { key: "b".to_owned() }) {
        Response::Failed(m) => assert_eq!(m, "Key not found"),
        _ => panic!("b was never set"),
    }
}

#[test]
fn error_messages() {
    assert_eq!(KvsError::Io("disk".to_owned()).message(), "IO error: disk");
    assert_eq!(KvsError::Serde("eof".to_owned()).message(), "serde_json error: eof");
    assert_eq!(KvsError::KeyNotFound.message(), "Key not found");
    assert_eq!(KvsError::UnexpectedCommandType.message(), "Unexpected command type");
    assert_eq!(KvsError::Utf8("bad".to_owned()).message(), "UTF-8 error: bad");
    assert_eq!(KvsError::Sled("db".to_owned()).message(), "sled error: db");
    assert_eq!(KvsError::StringError("plain".to_owned()).message(), "plain");
}

#[test]
fn event_values() {
    let v: Value<u32, String> = Value::Input(3);
    assert_eq!(*v.input(), 3);
    let w: Value<u32, String> = Value::Output("out".to_owned());
    assert_eq!(w.output(), "out");
    let op = Operation { input: 1u8, call: 0, output: 2u8, finish: 5 };
    assert!(op.call < op.finish);
}

#[test]
fn reloading_a_log_rebuilds_the_index_its_writes_built() {
    let mut written = LogIndex::new(1);
    written.record_set("a".to_owned(), 0, 10);
    written.record_set("b".to_owned(), 10, 20);
    written.record_set("a".to_owned(), 20, 25);
    written.record_remove("b", 25, 30).unwrap();
    let mut loaded = LogIndex::new(1);
    loaded.load(1, &vec![put("a", 0, 10), put("b", 10, 20), put("a", 20, 25), remove("b", 25, 30)]);
    for ix in [&written, &loaded] {
        let a = ix.lookup("a").unwrap();
        assert_eq!((a.gen, a.pos, a.len), (1, 20, 5));
        assert!(ix.lookup("b").is_none());
        assert_eq!(ix.uncompacted(), 10 + 10 + 5);
    }
}

#[test]
fn a_write_and_its_compaction_leave_no_stale_bytes() {
    let mut ix = LogIndex::new(1);
    ix.record_set("k".to_owned(), 0, COMPACTION_THRESHOLD + 1);
    let asks = ix.record_set("k".to_owned(), COMPACTION_THRESHOLD + 1, COMPACTION_THRESHOLD + 2);
    assert!(asks);
    ix.compact().unwrap();
    assert_eq!(ix.uncompacted(), 0);
}

#[test]
fn reopening_after_compaction_finds_every_live_key() {
    let mut ix = LogIndex::new(2);
    ix.load(1, &vec![put("a", 0, 10), put("b", 10, 25), put("a", 25, 31), remove("b", 31, 40), put("c", 40, 42)]);
    let (cgen, moves) = ix.compact().unwrap();
    let log: Vec<LoggedCommand> = moves
        .iter()
        .map(|m| LoggedCommand {
            cmd: Command::Put { key: m.key.clone(), value: "v".to_owned() },
            pos: m.to.pos,
            new_pos: m.to.pos + m.to.len,
        })
        .collect();
    let mut reopened = LogIndex::new(ix.current_gen());
    reopened.load(cgen, &log);
    for key in ["a", "b", "c"] {
        let (x, y) = (ix.lookup(key), reopened.lookup(key));
        assert_eq!(x.map(|p| (p.gen, p.pos, p.len)), y.map(|p| (p.gen, p.pos, p.len)));
    }
    assert!(reopened.lookup("b").is_none());
    assert_eq!(reopened.uncompacted(), 0);
}
