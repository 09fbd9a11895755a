//! The index of the log-structured store: where in which log file the
//! latest command for each key lies, and how many bytes of the logs are
//! stale. The files themselves are read and written by the caller; this
//! module decides what goes where.
use vstd::prelude::*;
use crossbeam_skiplist::SkipMap;
use super::error::KvsError;

verus! {

/// Stale bytes beyond which the logs are compacted.
pub const COMPACTION_THRESHOLD: u64 = 1048576;

/// Where a serialized command lies: its log generation, its offset in that
/// log and its length in bytes.
#[derive(Clone, Copy, Debug)]
pub struct CommandPos {
    pub gen: u64,
    pub pos: u64,
    pub len: u64,
}

impl CommandPos {
    /// The command of generation `gen` that spans the bytes `start..end`.
    pub fn new(gen: u64, start: u64, end: u64) -> (p: CommandPos)
        requires
            start <= end,
        ensures
            p == (CommandPos { gen, pos: start, len: (end - start) as u64 }),
    {
        CommandPos { gen, pos: start, len: end - start }
    }
}

/// A command of the log.
#[derive(Debug)]
pub enum Command {
    /// Sets the value of a key.
    Put { key: String, value: String },
    /// Removes a key.
    Remove { key: String },
}

/// A command read from a log, with the offsets at which it starts and ends.
pub struct LoggedCommand {
    pub cmd: Command,
    pub pos: u64,
    pub new_pos: u64,
}

#[verifier::external_type_specification]
#[verifier::external_body]
#[verifier::reject_recursive_types(K)]
#[verifier::reject_recursive_types(V)]
pub struct ExSkipMap<K, V>(SkipMap<K, V>);

/// A skip map from keys to the positions of their latest commands.
pub type PosMap = SkipMap<String, CommandPos>;

/// The entries of a skip map of keys and positions.
pub uninterp spec fn index_contents(m: SkipMap<String, CommandPos>) -> Map<Seq<char>, CommandPos>;

/// The index of no keys.
pub open spec fn no_positions() -> Map<Seq<char>, CommandPos> {
    Map::empty()
}

/// `SkipMap::new`: a map without entries.
#[verifier::external_body]
fn index_new() -> (r: PosMap)
    ensures
        index_contents(r) == no_positions(),
{
    SkipMap::new()
}

/// `SkipMap::get`: the position stored under `key`, if any.
#[verifier::external_body]
fn index_get(m: &SkipMap<String, CommandPos>, key: &str) -> (r: Option<CommandPos>)
    ensures
        match r {
            Some(p) => index_contents(*m).contains_key(key@) && index_contents(*m)[key@] == p,
            None => !index_contents(*m).contains_key(key@),
        },
{
    m.get(key).map(|e| *e.value())
}

/// `SkipMap::insert`: stores `pos` under `key`; an entry of that key is
/// replaced.
#[verifier::external_body]
fn index_insert(m: &mut SkipMap<String, CommandPos>, key: String, pos: CommandPos)
    ensures
        index_contents(*final(m)) == index_contents(*old(m)).insert(key@, pos),
{
    m.insert(key, pos);
}

/// `SkipMap::remove`: removes the entry of `key` and returns its position,
/// if there was one.
#[verifier::external_body]
fn index_remove(m: &mut SkipMap<String, CommandPos>, key: &str) -> (r: Option<CommandPos>)
    ensures
        index_contents(*final(m)) == index_contents(*old(m)).remove(key@),
        match r {
            Some(p) => index_contents(*old(m)).contains_key(key@) && index_contents(*old(m))[key@]
                == p,
            None => !index_contents(*old(m)).contains_key(key@),
        },
{
    m.remove(key).map(|e| *e.value())
}

/// Whether key `a` comes before key `b` in the order of `String`: the
/// lexicographic order of their characters, each taken by its code point.
pub open spec fn key_before(a: Seq<char>, b: Seq<char>) -> bool
    decreases a.len(),
{
    if a.len() == 0 {
        b.len() > 0
    } else if b.len() == 0 {
        false
    } else if a[0] != b[0] {
        (a[0] as u32) < (b[0] as u32)
    } else {
        key_before(a.drop_first(), b.drop_first())
    }
}

/// `SkipMap::iter`: every entry once, sorted by key, each converted to its
/// key and position.
#[verifier::external_body]
fn index_entries(m: &SkipMap<String, CommandPos>) -> (es: Vec<(String, CommandPos)>)
    ensures
        forall|i: int, j: int|
            0 <= i < j < es@.len() ==> key_before(#[trigger] es@[i].0@, #[trigger] es@[j].0@),
        forall|i: int|
            0 <= i < es@.len() ==> index_contents(*m).contains_key(#[trigger] es@[i].0@)
                && index_contents(*m)[es@[i].0@] == es@[i].1,
        forall|k: Seq<char>|
            index_contents(*m).contains_key(k) ==> exists|i: int|
                0 <= i < es@.len() && #[trigger] es@[i].0@ == k,
        forall|i: int, j: int|
            0 <= i < es@.len() && 0 <= j < es@.len() && i != j ==> es@[i].0@ != es@[j].0@,
{
    m.iter().map(|e| (e.key().clone(), *e.value())).collect()
}

/// The state of the index.
pub struct LogIndexView {
    pub map: Map<Seq<char>, CommandPos>,
    pub uncompacted: u64,
    pub current_gen: u64,
}

/// `a + b`, or `u64::MAX` where that is larger.
pub open spec fn sat_add(a: u64, b: int) -> u64 {
    if a + b > u64::MAX {
        u64::MAX
    } else {
        (a + b) as u64
    }
}

/// The index after a command of generation `gen`, spanning `pos..new_pos`,
/// is replayed or written: a `Put` points its key at the command, a
/// `Remove` drops its key; the command that a key pointed at becomes stale,
/// and so does a `Remove` itself.
pub open spec fn replay(
    v: LogIndexView,
    gen: u64,
    key: Seq<char>,
    is_put: bool,
    pos: u64,
    new_pos: u64,
) -> LogIndexView {
    let unc = if v.map.contains_key(key) {
        sat_add(v.uncompacted, v.map[key].len as int)
    } else {
        v.uncompacted
    };
    if is_put {
        LogIndexView {
            map: v.map.insert(key, CommandPos { gen, pos, len: (new_pos - pos) as u64 }),
            uncompacted: unc,
            ..v
        }
    } else {
        LogIndexView { map: v.map.remove(key), uncompacted: sat_add(unc, new_pos - pos), ..v }
    }
}

/// The key of a command.
pub open spec fn command_key(c: Command) -> Seq<char> {
    match c {
        Command::Put { key, .. } => key@,
        Command::Remove { key } => key@,
    }
}

/// The index after replaying a whole log of generation `gen`.
pub open spec fn replay_all(v: LogIndexView, gen: u64, cmds: Seq<LoggedCommand>) -> LogIndexView
    decreases cmds.len(),
{
    if cmds.len() == 0 {
        v
    } else {
        replay_all(
            replay(
                v,
                gen,
                command_key(cmds[0].cmd),
                cmds[0].cmd is Put,
                cmds[0].pos,
                cmds[0].new_pos,
            ),
            gen,
            cmds.skip(1),
        )
    }
}

/// The in-memory index of the log-structured store.
pub struct LogIndex {
    index: SkipMap<String, CommandPos>,
    uncompacted: u64,
    current_gen: u64,
}

impl View for LogIndex {
    type V = LogIndexView;

    closed spec fn view(&self) -> LogIndexView {
        LogIndexView {
            map: index_contents(self.index),
            uncompacted: self.uncompacted,
            current_gen: self.current_gen,
        }
    }
}

impl LogIndex {
    /// An index of no keys, writing to generation `current_gen`.
    pub fn new(current_gen: u64) -> (ix: LogIndex)
        ensures
            ix@.map == Map::<Seq<char>, CommandPos>::empty(),
            ix@.uncompacted == 0,
            ix@.current_gen == current_gen,
    {
        LogIndex { index: index_new(), uncompacted: 0, current_gen }
    }

    /// The generation that new commands are written to.
    pub fn current_gen(&self) -> (g: u64)
        ensures
            g == self@.current_gen,
    {
        self.current_gen
    }

    /// The number of stale bytes in the logs.
    pub fn uncompacted(&self) -> (u: u64)
        ensures
            u == self@.uncompacted,
    {
        self.uncompacted
    }

    /// Where the latest command for `key` lies, if the key is set.
    pub fn lookup(&self, key: &str) -> (r: Option<CommandPos>)
        ensures
            match r {
                Some(p) => self@.map.contains_key(key@) && self@.map[key@] == p,
                None => !self@.map.contains_key(key@),
            },
    {
        index_get(&self.index, key)
    }

    /// Whether `key` is set.
    pub fn contains_key(&self, key: &str) -> (b: bool)
        ensures
            b == self@.map.contains_key(key@),
    {
        index_get(&self.index, key).is_some()
    }

    /// Replays one command of the log of generation `gen`.
    pub fn replay_command(&mut self, gen: u64, cmd: &Command, pos: u64, new_pos: u64)
        requires
            pos <= new_pos,
        ensures
            final(self)@ == replay(old(self)@, gen, command_key(*cmd), cmd is Put, pos, new_pos),
    {
        let key: &String = match cmd {
            Command::Put { key, .. } => key,
            Command::Remove { key } => key,
        };
        let old_pos = index_get(&self.index, key.as_str());
        let mut unc = self.uncompacted;
        if let Some(p) = old_pos {
            unc = unc.saturating_add(p.len);
        }
        match cmd {
            Command::Put { .. } => {
                index_insert(&mut self.index, key.clone(), CommandPos::new(gen, pos, new_pos));
            },
            Command::Remove { .. } => {
                let _ = index_remove(&mut self.index, key.as_str());
                unc = unc.saturating_add(new_pos - pos);
            },
        }
        self.uncompacted = unc;
    }

    /// Replays a whole log of generation `gen`, in order.
    pub fn load(&mut self, gen: u64, cmds: &Vec<LoggedCommand>)
        requires
            forall|i: int| 0 <= i < cmds@.len() ==> #[trigger] cmds@[i].pos <= cmds@[i].new_pos,
        ensures
            final(self)@ == replay_all(old(self)@, gen, cmds@),
    {
        let mut k: usize = 0;
        assert(cmds@.skip(0) =~= cmds@);
        while k < cmds.len()
            invariant
                k <= cmds@.len(),
                forall|i: int| 0 <= i < cmds@.len() ==> #[trigger] cmds@[i].pos <= cmds@[i].new_pos,
                replay_all(old(self)@, gen, cmds@) == replay_all(self@, gen, cmds@.skip(k as int)),
            decreases cmds@.len() - k,
        {
            let c = &cmds[k];
            proof {
                assert(cmds@.skip(k as int)[0] == cmds@[k as int]);
                assert(cmds@.skip(k as int).skip(1) =~= cmds@.skip(k + 1));
            }
            self.replay_command(gen, &c.cmd, c.pos, c.new_pos);
            k = k + 1;
        }
        assert(cmds@.skip(cmds@.len() as int) =~= Seq::<LoggedCommand>::empty());
    }
}

/// A command to be copied during compaction, from where it lies to where it
/// goes in the compacted log.
pub struct Move {
    pub key: String,
    pub from: CommandPos,
    pub to: CommandPos,
}

/// The value that a command read for a key holds.
///
/// # Errors
///
/// `KvsError::UnexpectedCommandType` when the command is not a `Put`: the
/// index never points at a `Remove`, so the log is corrupt.
pub fn command_value(cmd: Command) -> (r: Result<String, KvsError>)
    ensures
        match cmd {
            Command::Put { value, .. } => r matches Ok(v) && v@ == value@,
            Command::Remove { .. } => r matches Err(KvsError::UnexpectedCommandType),
        },
{
    match cmd {
        Command::Put { value, .. } => Ok(value),
        Command::Remove { .. } => Err(KvsError::UnexpectedCommandType),
    }
}

impl LogIndex {
    /// Records a `Put` of `key` written to the current generation at
    /// `pos..new_pos`; whether the logs now hold enough stale bytes to be
    /// compacted.
    pub fn record_set(&mut self, key: String, pos: u64, new_pos: u64) -> (compact: bool)
        requires
            pos <= new_pos,
        ensures
            final(self)@ == replay(old(self)@, old(self)@.current_gen, key@, true, pos, new_pos),
            compact == (final(self)@.uncompacted > COMPACTION_THRESHOLD),
    {
        let gen = self.current_gen;
        let cmd = Command::Put { key, value: String::new() };
        self.replay_command(gen, &cmd, pos, new_pos);
        self.uncompacted > COMPACTION_THRESHOLD
    }

    /// Records a `Remove` of `key` written to the current generation at
    /// `pos..new_pos`; whether the logs now need compaction.
    ///
    /// # Errors
    ///
    /// `KvsError::KeyNotFound`, with nothing changed, when the key is not
    /// set.
    pub fn record_remove(&mut self, key: &str, pos: u64, new_pos: u64) -> (r: Result<bool, KvsError>)
        requires
            pos <= new_pos,
        ensures
            old(self)@.map.contains_key(key@) ==> {
                &&& final(self)@ == replay(
                    old(self)@,
                    old(self)@.current_gen,
                    key@,
                    false,
                    pos,
                    new_pos,
                )
                &&& r matches Ok(c) && c == (final(self)@.uncompacted > COMPACTION_THRESHOLD)
            },
            !old(self)@.map.contains_key(key@) ==> final(self)@ == old(self)@ && r matches Err(
                KvsError::KeyNotFound,
            ),
    {
        if !self.contains_key(key) {
            return Err(KvsError::KeyNotFound);
        }
        let gen = self.current_gen;
        let cmd = Command::Remove { key: key.to_owned() };
        self.replay_command(gen, &cmd, pos, new_pos);
        Ok(self.uncompacted > COMPACTION_THRESHOLD)
    }

    /// Compacts the index: every live command is given a place, one after the
    /// other from offset 0, in a new generation `current_gen + 1`; new
    /// writes go to `current_gen + 2`; no byte is stale any more. Returns the
    /// new generation and the moves the caller is to carry out, in order of
    /// their keys.
    ///
    /// # Errors
    ///
    /// `KvsError::StringError`, with nothing changed, when the generation
    /// numbers or the offsets of the compacted log would not fit in a `u64`.
    #[verifier::rlimit(100)]
    #[verifier::spinoff_prover]
    pub fn compact(&mut self) -> (r: Result<(u64, Vec<Move>), KvsError>)
        ensures
            match r {
                Ok((cgen, moves)) => compacted(old(self)@, final(self)@, cgen, moves@),
                Err(e) => final(self)@ == old(self)@ && e is StringError,
            },
            r is Ok <==> old(self)@.current_gen < u64::MAX - 1 && live_bytes(old(self)@.map)
                <= u64::MAX,
    {
        if self.current_gen >= u64::MAX - 1 {
            return Err(KvsError::StringError("generation numbers exhausted".to_owned()));
        }
        let entries = index_entries(&self.index);
        let ghost ev = entry_views(entries@);
        proof {
            let m = self@.map;
            assert forall|i: int, j: int| 0 <= i < j < ev.len() implies key_before(
                #[trigger] ev[i].0,
                #[trigger] ev[j].0,
            ) by {
                assert(ev[i].0 == entries@[i].0@ && ev[j].0 == entries@[j].0@);
            }
            assert forall|i: int| 0 <= i < ev.len() implies m.contains_key(#[trigger] ev[i].0)
                && m[ev[i].0] == ev[i].1 by {
                assert(ev[i].0 == entries@[i].0@);
            }
            assert forall|key: Seq<char>| m.contains_key(key) implies exists|i: int|
                0 <= i < ev.len() && #[trigger] ev[i].0 == key by {
                let i = choose|i: int| 0 <= i < entries@.len() && #[trigger] entries@[i].0@ == key;
                assert(ev[i].0 == key);
            }
            lemma_live_bytes_of_listing(ev, m);
        }
        let mut total: u64 = 0;
        let mut k: usize = 0;
        while k < entries.len()
            invariant
                k <= entries@.len(),
                ev == entry_views(entries@),
                total == total_len(ev, k as int),
                live_bytes(old(self)@.map) == total_len(ev, ev.len() as int),
                old(self)@.current_gen < u64::MAX - 1,
            decreases entries@.len() - k,
        {
            if total > u64::MAX - entries[k].1.len {
                proof {
                    lemma_total_len_monotonic(ev, k + 1, ev.len() as int);
                }
                return Err(KvsError::StringError("compacted log too large".to_owned()));
            }
            total = total + entries[k].1.len;
            k = k + 1;
        }
        let ghost old_map = self@.map;
        assert(old_map == old(self)@.map);
        let cgen = self.current_gen + 1;
        let mut moves: Vec<Move> = Vec::new();
        let mut new_pos: u64 = 0;
        let mut k: usize = 0;
        while k < entries.len()
            invariant
                k <= entries@.len(),
                moves@.len() == k,
                self@.map.dom() == old_map.dom(),
                forall|i: int|
                    0 <= i < entries@.len() ==> old_map.contains_key(#[trigger] entries@[i].0@)
                        && old_map[entries@[i].0@] == entries@[i].1,
                forall|i: int, j: int|
                    0 <= i < entries@.len() && 0 <= j < entries@.len() && i != j
                        ==> entries@[i].0@ != entries@[j].0@,
                forall|i: int, j: int|
                    0 <= i < j < entries@.len() ==> key_before(
                        #[trigger] entries@[i].0@,
                        #[trigger] entries@[j].0@,
                    ),
                forall|i: int| 0 <= i < k ==> #[trigger] moves@[i].key@ == entries@[i].0@,
                forall|i: int|
                    0 <= i < k ==> {
                        &&& #[trigger] moves@[i].from == entries@[i].1
                        &&& moves@[i].to == self@.map[entries@[i].0@]
                        &&& moves@[i].to.gen == cgen
                        &&& moves@[i].to.len == moves@[i].from.len
                        &&& moves@[i].to.pos == if i == 0 {
                            0
                        } else {
                            moves@[i - 1].to.pos + moves@[i - 1].to.len
                        }
                    },
                forall|i: int| k <= i < entries@.len() ==> self@.map[#[trigger] entries@[i].0@]
                    == entries@[i].1,
                new_pos == if k == 0 {
                    0
                } else {
                    moves@[k - 1].to.pos + moves@[k - 1].to.len
                },
                ev == entry_views(entries@),
                new_pos == total_len(ev, k as int),
                total_len(ev, ev.len() as int) <= u64::MAX,
                cgen == old(self)@.current_gen + 1,
                self@.current_gen == old(self)@.current_gen,
                old(self)@.current_gen < u64::MAX - 1,
            decreases entries@.len() - k,
        {
            proof {
                lemma_total_len_monotonic(ev, k + 1, ev.len() as int);
            }
            let key = entries[k].0.clone();
            let from = entries[k].1;
            let to = CommandPos { gen: cgen, pos: new_pos, len: from.len };
            index_insert(&mut self.index, key.clone(), to);
            moves.push(Move { key, from, to });
            new_pos = new_pos + from.len;
            k = k + 1;
        }
        self.current_gen = self.current_gen + 2;
        self.uncompacted = 0;
        proof {
            assert forall|key: Seq<char>| old_map.contains_key(key) implies exists|i: int|
                0 <= i < moves@.len() && #[trigger] moves@[i].key@ == key by {
                let i = choose|i: int| 0 <= i < entries@.len() && #[trigger] entries@[i].0@ == key;
                assert(moves@[i].key@ == entries@[i].0@);
            }
            assert forall|i: int, j: int|
                0 <= i < moves@.len() && 0 <= j < moves@.len() && i != j implies moves@[i].key@
                != moves@[j].key@ by {
                assert(moves@[i].key@ == entries@[i].0@);
                assert(moves@[j].key@ == entries@[j].0@);
            }
            assert forall|i: int, j: int| 0 <= i < j < moves@.len() implies key_before(
                #[trigger] moves@[i].key@,
                #[trigger] moves@[j].key@,
            ) by {
                assert(moves@[i].key@ == entries@[i].0@);
                assert(moves@[j].key@ == entries@[j].0@);
            }
            assert forall|i: int| 0 <= i < moves@.len() implies {
                &&& old_map.contains_key(#[trigger] moves@[i].key@)
                &&& moves@[i].from == old_map[moves@[i].key@]
                &&& moves@[i].to == self@.map[moves@[i].key@]
                &&& moves@[i].to.gen == cgen
                &&& moves@[i].to.len == moves@[i].from.len
                &&& moves@[i].to.pos == if i == 0 {
                    0
                } else {
                    moves@[i - 1].to.pos + moves@[i - 1].to.len
                }
            } by {
                assert(moves@[i].key@ == entries@[i].0@);
                assert(moves@[i].from == entries@[i].1);
            }
        }
        assert(compacted(old(self)@, self@, cgen, moves@));
        Ok((cgen, moves))
    }
}

/// The index `after` is `before` compacted into generation `cgen` by the
/// `moves`: each live command moves once, in ascending key order, the moves
/// fill the new log from offset 0 without gaps, new writes go past `cgen`,
/// nothing is stale.
pub open spec fn compacted(before: LogIndexView, after: LogIndexView, cgen: u64, moves: Seq<Move>) -> bool {
    &&& cgen == before.current_gen + 1
    &&& after.current_gen == before.current_gen + 2
    &&& after.uncompacted == 0
    &&& after.map.dom() == before.map.dom()
    &&& forall|k: Seq<char>|
        before.map.contains_key(k) ==> exists|i: int|
            0 <= i < moves.len() && #[trigger] moves[i].key@ == k
    &&& forall|i: int, j: int|
        0 <= i < moves.len() && 0 <= j < moves.len() && i != j ==> moves[i].key@ != moves[j].key@
    &&& forall|i: int, j: int|
        0 <= i < j < moves.len() ==> key_before(#[trigger] moves[i].key@, #[trigger] moves[j].key@)
    &&& forall|i: int|
        0 <= i < moves.len() ==> {
            &&& before.map.contains_key(#[trigger] moves[i].key@)
            &&& moves[i].from == before.map[moves[i].key@]
            &&& moves[i].to == after.map[moves[i].key@]
            &&& moves[i].to.gen == cgen
            &&& moves[i].to.len == moves[i].from.len
            &&& moves[i].to.pos == if i == 0 {
                0
            } else {
                moves[i - 1].to.pos + moves[i - 1].to.len
            }
        }
}

proof fn lemma_total_len_monotonic(es: Seq<(Seq<char>, CommandPos)>, k: int, j: int)
    requires
        0 <= k <= j,
    ensures
        total_len(es, k) <= total_len(es, j),
    decreases j - k,
{
    if k < j {
        lemma_total_len_monotonic(es, k, j - 1);
    }
}

/// The total length of the first `k` entries.
pub open spec fn total_len(es: Seq<(Seq<char>, CommandPos)>, k: int) -> int
    decreases k,
{
    if k <= 0 {
        0
    } else {
        total_len(es, k - 1) + es[k - 1].1.len
    }
}

/// The key and position of each entry, as values.
pub open spec fn entry_views(es: Seq<(String, CommandPos)>) -> Seq<(Seq<char>, CommandPos)> {
    es.map_values(|e: (String, CommandPos)| (e.0@, e.1))
}

/// `es` lists the entries of `m`, each once, in ascending key order.
pub open spec fn sorted_listing(es: Seq<(Seq<char>, CommandPos)>, m: Map<Seq<char>, CommandPos>) -> bool {
    &&& forall|i: int, j: int|
        0 <= i < j < es.len() ==> key_before(#[trigger] es[i].0, #[trigger] es[j].0)
    &&& forall|i: int|
        0 <= i < es.len() ==> m.contains_key(#[trigger] es[i].0) && m[es[i].0] == es[i].1
    &&& forall|k: Seq<char>| m.contains_key(k) ==> exists|i: int| 0 <= i < es.len() && #[trigger] es[i].0 == k
}

/// The bytes that the live commands of the index `m` take: their lengths
/// added up.
pub open spec fn live_bytes(m: Map<Seq<char>, CommandPos>) -> int {
    let es = choose|es: Seq<(Seq<char>, CommandPos)>| sorted_listing(es, m);
    total_len(es, es.len() as int)
}

/// No key comes before itself.
proof fn lemma_key_before_irreflexive(a: Seq<char>)
    ensures
        !key_before(a, a),
    decreases a.len(),
{
    if a.len() > 0 {
        lemma_key_before_irreflexive(a.drop_first());
    }
}

/// Of two keys, at most one comes before the other.
proof fn lemma_key_before_asymmetric(a: Seq<char>, b: Seq<char>)
    requires
        key_before(a, b),
    ensures
        !key_before(b, a),
    decreases a.len(),
{
    if a.len() > 0 && b.len() > 0 && a[0] == b[0] {
        lemma_key_before_asymmetric(a.drop_first(), b.drop_first());
    }
}

/// A sorted listing, less its first entry, lists the rest of the map.
proof fn lemma_sorted_listing_rest(es: Seq<(Seq<char>, CommandPos)>, m: Map<Seq<char>, CommandPos>)
    requires
        sorted_listing(es, m),
        es.len() > 0,
    ensures
        sorted_listing(es.drop_first(), m.remove(es[0].0)),
{
    let k0 = es[0].0;
    let rest = es.drop_first();
    let m1 = m.remove(k0);
    assert forall|i: int| 0 <= i < rest.len() implies m1.contains_key(#[trigger] rest[i].0)
        && m1[rest[i].0] == rest[i].1 by {
        assert(key_before(es[0].0, es[i + 1].0));
        lemma_key_before_irreflexive(k0);
    }
    assert forall|k: Seq<char>| m1.contains_key(k) implies exists|i: int|
        0 <= i < rest.len() && #[trigger] rest[i].0 == k by {
        let i = choose|i: int| 0 <= i < es.len() && #[trigger] es[i].0 == k;
        assert(rest[i - 1].0 == k);
    }
    assert forall|i: int, j: int| 0 <= i < j < rest.len() implies key_before(
        #[trigger] rest[i].0,
        #[trigger] rest[j].0,
    ) by {
        assert(key_before(es[i + 1].0, es[j + 1].0));
    }
}

/// A map has at most one sorted listing.
proof fn lemma_sorted_listing_unique(
    a: Seq<(Seq<char>, CommandPos)>,
    b: Seq<(Seq<char>, CommandPos)>,
    m: Map<Seq<char>, CommandPos>,
)
    requires
        sorted_listing(a, m),
        sorted_listing(b, m),
    ensures
        a == b,
    decreases a.len(),
{
    if a.len() == 0 {
        if b.len() > 0 {
            assert(m.contains_key(b[0].0));
        }
        assert(a =~= b);
    } else {
        let k0 = a[0].0;
        assert(m.contains_key(k0));
        let j = choose|j: int| 0 <= j < b.len() && #[trigger] b[j].0 == k0;
        let i = choose|i: int| 0 <= i < a.len() && #[trigger] a[i].0 == b[0].0;
        if j > 0 {
            assert(key_before(b[0].0, b[j].0));
            if i == 0 {
                lemma_key_before_irreflexive(k0);
            } else {
                assert(key_before(a[0].0, a[i].0));
                lemma_key_before_asymmetric(a[0].0, a[i].0);
            }
        }
        assert(a[0] == b[0]);
        lemma_sorted_listing_rest(a, m);
        lemma_sorted_listing_rest(b, m);
        lemma_sorted_listing_unique(a.drop_first(), b.drop_first(), m.remove(k0));
        assert(a =~= b) by {
            assert forall|x: int| 0 <= x < a.len() implies a[x] == b[x] by {
                if x > 0 {
                    assert(a[x] == a.drop_first()[x - 1]);
                    assert(b[x] == b.drop_first()[x - 1]);
                }
            }
        }
    }
}

/// The live bytes of a map are the total length of any sorted listing of it.
proof fn lemma_live_bytes_of_listing(es: Seq<(Seq<char>, CommandPos)>, m: Map<Seq<char>, CommandPos>)
    requires
        sorted_listing(es, m),
    ensures
        live_bytes(m) == total_len(es, es.len() as int),
{
    let c = choose|c: Seq<(Seq<char>, CommandPos)>| sorted_listing(c, m);
    lemma_sorted_listing_unique(es, c, m);
}

} // verus!
