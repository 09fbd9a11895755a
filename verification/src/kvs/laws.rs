//! Laws of the log-structured store's index: writing and replaying a log
//! agree, the last command on a key decides its entry, reopening after a
//! compaction finds every live key where the compaction put it, and a write
//! with the compaction it asks for leaves few stale bytes.
use vstd::prelude::*;
use super::log::{
    command_key, compacted, replay, replay_all, CommandPos, LogIndexView, LoggedCommand, Move,
    COMPACTION_THRESHOLD,
};

verus! {

/// Where the last command on `key` stands among `cmds`, if any.
pub open spec fn last_command_on(cmds: Seq<LoggedCommand>, key: Seq<char>) -> Option<int>
    decreases cmds.len(),
{
    if cmds.len() == 0 {
        None
    } else if command_key(cmds.last().cmd) == key {
        Some(cmds.len() - 1)
    } else {
        last_command_on(cmds.drop_last(), key)
    }
}

/// The last command on a key is one of the log's, and on that key.
proof fn lemma_last_command_on_bounds(cmds: Seq<LoggedCommand>, key: Seq<char>)
    ensures
        last_command_on(cmds, key) matches Some(i) ==> 0 <= i < cmds.len() && command_key(
            cmds[i].cmd,
        ) == key,
    decreases cmds.len(),
{
    if cmds.len() > 0 {
        lemma_last_command_on_bounds(cmds.drop_last(), key);
    }
}

/// Recording the commands of a log one by one, as a write does, builds the
/// index that loading the whole log builds: loading a log one command longer
/// is loading the log, then recording that command.
pub proof fn law_recording_is_replaying(
    v: LogIndexView,
    gen: u64,
    cmds: Seq<LoggedCommand>,
    c: LoggedCommand,
)
    ensures
        replay_all(v, gen, cmds.push(c)) == replay(
            replay_all(v, gen, cmds),
            gen,
            command_key(c.cmd),
            c.cmd is Put,
            c.pos,
            c.new_pos,
        ),
    decreases cmds.len(),
{
    let all = cmds.push(c);
    if cmds.len() > 0 {
        let v1 = replay(v, gen, command_key(cmds[0].cmd), cmds[0].cmd is Put, cmds[0].pos, cmds[0].new_pos);
        assert(all.skip(1) =~= cmds.skip(1).push(c));
        assert(all[0] == cmds[0]);
        assert(replay_all(v, gen, all) == replay_all(v1, gen, all.skip(1)));
        assert(replay_all(v, gen, cmds) == replay_all(v1, gen, cmds.skip(1)));
        law_recording_is_replaying(v1, gen, cmds.skip(1), c);
    } else {
        assert(all.skip(1) =~= Seq::<LoggedCommand>::empty());
        assert(all[0] == c);
        let v1 = replay(v, gen, command_key(c.cmd), c.cmd is Put, c.pos, c.new_pos);
        assert(replay_all(v, gen, all) == replay_all(v1, gen, all.skip(1)));
        assert(replay_all(v1, gen, all.skip(1)) == v1);
    }
}

/// After a log is replayed, the last command on a key decides its entry: a
/// `Put` leaves the key pointing at that command, a `Remove` leaves the key
/// out, and a key the log does not name keeps the entry it had.
pub proof fn law_last_command_wins(
    v: LogIndexView,
    gen: u64,
    cmds: Seq<LoggedCommand>,
    key: Seq<char>,
)
    ensures
        ({
            let after = replay_all(v, gen, cmds);
            match last_command_on(cmds, key) {
                Some(i) => if cmds[i].cmd is Put {
                    &&& after.map.contains_key(key)
                    &&& after.map[key] == (CommandPos {
                        gen,
                        pos: cmds[i].pos,
                        len: (cmds[i].new_pos - cmds[i].pos) as u64,
                    })
                } else {
                    !after.map.contains_key(key)
                },
                None => {
                    &&& after.map.contains_key(key) == v.map.contains_key(key)
                    &&& v.map.contains_key(key) ==> after.map[key] == v.map[key]
                },
            }
        }),
    decreases cmds.len(),
{
    if cmds.len() > 0 {
        let init = cmds.drop_last();
        let c = cmds.last();
        assert(init.push(c) =~= cmds);
        law_recording_is_replaying(v, gen, init, c);
        law_last_command_wins(v, gen, init, key);
        lemma_last_command_on_bounds(init, key);
        let before = replay_all(v, gen, init);
        let after = replay_all(v, gen, cmds);
        assert(after == replay(before, gen, command_key(c.cmd), c.cmd is Put, c.pos, c.new_pos));
        if command_key(c.cmd) == key {
            assert(last_command_on(cmds, key) == Some(cmds.len() - 1));
        } else {
            assert(last_command_on(cmds, key) == last_command_on(init, key));
            assert(after.map.contains_key(key) == before.map.contains_key(key));
            if before.map.contains_key(key) {
                assert(after.map[key] == before.map[key]);
            }
            match last_command_on(init, key) {
                Some(i) => {
                    assert(cmds[i] == init[i]);
                },
                None => {},
            }
        }
    }
}

/// A write with the compaction it asks for leaves at most
/// `COMPACTION_THRESHOLD` stale bytes: either the recorded write left no
/// more than that, or the compaction that followed left none.
pub proof fn law_write_keeps_stale_bytes_bounded(
    recorded: LogIndexView,
    asks_compaction: bool,
    after: LogIndexView,
    cgen: u64,
    moves: Seq<Move>,
)
    requires
        asks_compaction == (recorded.uncompacted > COMPACTION_THRESHOLD),
        asks_compaction ==> compacted(recorded, after, cgen, moves),
        !asks_compaction ==> after == recorded,
    ensures
        after.uncompacted <= COMPACTION_THRESHOLD,
        asks_compaction ==> after.uncompacted == 0,
{
}

/// Where a log names a key exactly once, that command is the last on it.
proof fn lemma_last_command_is_the_only(cmds: Seq<LoggedCommand>, key: Seq<char>, i: int)
    requires
        0 <= i < cmds.len(),
        command_key(cmds[i].cmd) == key,
        forall|j: int| 0 <= j < cmds.len() && j != i ==> command_key(#[trigger] cmds[j].cmd) != key,
    ensures
        last_command_on(cmds, key) == Some(i),
    decreases cmds.len(),
{
    if i < cmds.len() - 1 {
        let init = cmds.drop_last();
        assert(command_key(cmds[cmds.len() - 1].cmd) != key);
        assert forall|j: int| 0 <= j < init.len() && j != i implies command_key(#[trigger] init[j].cmd)
            != key by {
            assert(init[j] == cmds[j]);
        }
        lemma_last_command_is_the_only(init, key, i);
    }
}

/// A log that names no key leaves every key's entry as it was.
proof fn lemma_no_command_on(cmds: Seq<LoggedCommand>, key: Seq<char>)
    requires
        forall|j: int| 0 <= j < cmds.len() ==> command_key(#[trigger] cmds[j].cmd) != key,
    ensures
        last_command_on(cmds, key) is None,
    decreases cmds.len(),
{
    if cmds.len() > 0 {
        let init = cmds.drop_last();
        assert forall|j: int| 0 <= j < init.len() implies command_key(#[trigger] init[j].cmd) != key by {
            assert(init[j] == cmds[j]);
        }
        lemma_no_command_on(init, key);
    }
}

/// `cmds` is the compacted log that `moves` lay out: for each move, in
/// order, a `Put` of its key spanning its new place.
pub open spec fn compacted_log(moves: Seq<Move>, cmds: Seq<LoggedCommand>) -> bool {
    &&& cmds.len() == moves.len()
    &&& forall|i: int|
        0 <= i < cmds.len() ==> {
            &&& (#[trigger] cmds[i]).cmd is Put
            &&& command_key(cmds[i].cmd) == moves[i].key@
            &&& cmds[i].pos == moves[i].to.pos
            &&& cmds[i].new_pos == moves[i].to.pos + moves[i].to.len
        }
}

/// Reopening after a compaction finds every live key where the compaction
/// put it: replaying the compacted log, generation `cgen`, onto an empty
/// index rebuilds the index the compaction left. The logs written after it
/// are then replayed on top, as `law_last_command_wins` describes.
pub proof fn law_reopen_after_compaction(
    before: LogIndexView,
    after: LogIndexView,
    cgen: u64,
    moves: Seq<Move>,
    cmds: Seq<LoggedCommand>,
    empty: LogIndexView,
)
    requires
        compacted(before, after, cgen, moves),
        compacted_log(moves, cmds),
        empty.map == Map::<Seq<char>, CommandPos>::empty(),
    ensures
        replay_all(empty, cgen, cmds).map == after.map,
{
    let rebuilt = replay_all(empty, cgen, cmds).map;
    assert forall|key: Seq<char>| #[trigger] rebuilt.contains_key(key) == after.map.contains_key(key)
        && (after.map.contains_key(key) ==> rebuilt[key] == after.map[key]) by {
        law_last_command_wins(empty, cgen, cmds, key);
        if exists|i: int| 0 <= i < moves.len() && #[trigger] moves[i].key@ == key {
            let i = choose|i: int| 0 <= i < moves.len() && #[trigger] moves[i].key@ == key;
            assert forall|j: int| 0 <= j < cmds.len() && j != i implies command_key(
                #[trigger] cmds[j].cmd,
            ) != key by {
                assert(moves[j].key@ != moves[i].key@);
            }
            assert(command_key(cmds[i].cmd) == key);
            lemma_last_command_is_the_only(cmds, key, i);
            assert(after.map[key] == moves[i].to);
        } else {
            assert forall|j: int| 0 <= j < cmds.len() implies command_key(#[trigger] cmds[j].cmd)
                != key by {
                assert(command_key(cmds[j].cmd) == moves[j].key@);
            }
            lemma_no_command_on(cmds, key);
            assert(!before.map.contains_key(key));
        }
    }
    assert(rebuilt =~= after.map);
}

} // verus!
