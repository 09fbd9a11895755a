//! The byte layout in which a Raft node saves its persistent state.
//!
//! Every number is a little-endian `u64`. The state is the current term, the
//! vote (0 for none, `c + 1` for a vote for peer `c`), the index and term of
//! the last entry covered by the snapshot, the number of log entries, and then
//! each entry as its term, the length of its command and the command bytes.
use vstd::prelude::*;
use vstd::bytes::*;
use vstd::slice::*;

verus! {

broadcast use vstd::seq_lib::group_seq_properties;

/// One entry of the replicated log: the term in which a leader received it
/// and the encoded command.
pub struct LogEntry {
    pub term: u64,
    pub data: Vec<u8>,
}

/// The mathematical value of a log entry.
pub struct EntryView {
    pub term: u64,
    pub data: Seq<u8>,
}

impl View for LogEntry {
    type V = EntryView;

    open spec fn view(&self) -> EntryView {
        EntryView { term: self.term, data: self.data@ }
    }
}

impl Clone for LogEntry {
    fn clone(&self) -> (copy: Self)
        ensures
            copy@ == self@,
    {
        LogEntry { term: self.term, data: slice_to_vec(self.data.as_slice()) }
    }
}

/// The views of a sequence of log entries.
pub open spec fn entries_view(log: Seq<LogEntry>) -> Seq<EntryView> {
    log.map_values(|e: LogEntry| e@)
}

/// The state of a Raft node that survives a crash.
pub struct PersistentState {
    pub current_term: u64,
    pub voted_for: Option<usize>,
    pub snapshot_index: u64,
    pub snapshot_term: u64,
    pub log: Vec<LogEntry>,
}

/// The mathematical value of the persistent state.
pub struct PersistentStateView {
    pub current_term: u64,
    pub voted_for: Option<usize>,
    pub snapshot_index: u64,
    pub snapshot_term: u64,
    pub log: Seq<EntryView>,
}

impl View for PersistentState {
    type V = PersistentStateView;

    open spec fn view(&self) -> PersistentStateView {
        PersistentStateView {
            current_term: self.current_term,
            voted_for: self.voted_for,
            snapshot_index: self.snapshot_index,
            snapshot_term: self.snapshot_term,
            log: entries_view(self.log@),
        }
    }
}

/// The eight little-endian bytes of `x`.
pub open spec fn u64_bytes(x: u64) -> Seq<u8> {
    spec_u64_to_le_bytes(x)
}

/// The number that stands for a vote.
pub open spec fn vote_code(v: Option<usize>) -> int {
    match v {
        None => 0,
        Some(c) => c + 1,
    }
}

/// The bytes of one log entry.
pub open spec fn entry_bytes(e: EntryView) -> Seq<u8> {
    u64_bytes(e.term) + u64_bytes(e.data.len() as u64) + e.data
}

/// The bytes of a sequence of log entries, one after the other.
pub open spec fn entries_bytes(log: Seq<EntryView>) -> Seq<u8>
    decreases log.len(),
{
    if log.len() == 0 {
        Seq::empty()
    } else {
        entry_bytes(log[0]) + entries_bytes(log.skip(1))
    }
}

/// The bytes of a persistent state.
pub open spec fn state_bytes(ps: PersistentStateView) -> Seq<u8> {
    u64_bytes(ps.current_term) + u64_bytes(vote_code(ps.voted_for) as u64) + u64_bytes(
        ps.snapshot_index,
    ) + u64_bytes(ps.snapshot_term) + u64_bytes(ps.log.len() as u64) + entries_bytes(ps.log)
}

/// A state that the layout can hold: every count and the vote fit in a `u64`.
pub open spec fn encodable(ps: PersistentStateView) -> bool {
    &&& vote_code(ps.voted_for) <= u64::MAX
    &&& ps.log.len() <= u64::MAX
    &&& forall|i: int| 0 <= i < ps.log.len() ==> #[trigger] ps.log[i].data.len() <= u64::MAX
}

// ---- the parser, as a spec function, against which `decode_state` is proved ----

spec fn parse_u64(s: Seq<u8>, pos: int) -> Option<u64> {
    if 0 <= pos && pos + 8 <= s.len() {
        Some(spec_u64_from_le_bytes(s.subrange(pos, pos + 8)))
    } else {
        None
    }
}

spec fn parse_entries(s: Seq<u8>, pos: int, count: nat) -> Option<Seq<EntryView>>
    decreases count,
{
    if count == 0 {
        if pos == s.len() {
            Some(Seq::empty())
        } else {
            None
        }
    } else {
        match parse_u64(s, pos) {
            None => None,
            Some(term) => match parse_u64(s, pos + 8) {
                None => None,
                Some(len) => if pos + 16 + len <= s.len() {
                    match parse_entries(s, pos + 16 + len, (count - 1) as nat) {
                        None => None,
                        Some(rest) => Some(
                            seq![EntryView { term, data: s.subrange(pos + 16, pos + 16 + len) }]
                                + rest,
                        ),
                    }
                } else {
                    None
                },
            },
        }
    }
}

spec fn vote_of_code(k: u64) -> Option<Option<usize>> {
    if k == 0 {
        Some(None)
    } else if k - 1 <= usize::MAX {
        Some(Some((k - 1) as usize))
    } else {
        None
    }
}

spec fn parse_state(s: Seq<u8>) -> Option<PersistentStateView> {
    if s.len() < 40 {
        None
    } else {
        let term = spec_u64_from_le_bytes(s.subrange(0, 8));
        let vote = spec_u64_from_le_bytes(s.subrange(8, 16));
        let si = spec_u64_from_le_bytes(s.subrange(16, 24));
        let st = spec_u64_from_le_bytes(s.subrange(24, 32));
        let count = spec_u64_from_le_bytes(s.subrange(32, 40));
        match vote_of_code(vote) {
            None => None,
            Some(v) => match parse_entries(s, 40, count as nat) {
                None => None,
                Some(log) => Some(
                    PersistentStateView {
                        current_term: term,
                        voted_for: v,
                        snapshot_index: si,
                        snapshot_term: st,
                        log,
                    },
                ),
            },
        }
    }
}

proof fn lemma_u64_bytes()
    ensures
        forall|x: u64| #[trigger] u64_bytes(x).len() == 8,
        forall|x: u64| spec_u64_from_le_bytes(#[trigger] u64_bytes(x)) == x,
        forall|s: Seq<u8>|
            s.len() == 8 ==> u64_bytes(#[trigger] spec_u64_from_le_bytes(s)) == s,
{
    lemma_auto_spec_u64_to_from_le_bytes();
}

proof fn lemma_entries_len(log: Seq<EntryView>)
    ensures
        entries_bytes(log).len() >= 16 * log.len(),
    decreases log.len(),
{
    lemma_u64_bytes();
    if log.len() > 0 {
        lemma_entries_len(log.skip(1));
    }
}

/// Parsing `prefix + entries_bytes(log)` after the prefix gives back `log`.
proof fn lemma_parse_entries_complete(prefix: Seq<u8>, log: Seq<EntryView>)
    requires
        forall|i: int| 0 <= i < log.len() ==> #[trigger] log[i].data.len() <= u64::MAX,
    ensures
        parse_entries(prefix + entries_bytes(log), prefix.len() as int, log.len()) == Some(log),
    decreases log.len(),
{
    lemma_u64_bytes();
    let s = prefix + entries_bytes(log);
    let pos = prefix.len() as int;
    if log.len() == 0 {
        assert(s =~= prefix);
    } else {
        let e = log[0];
        let rest = log.skip(1);
        let prefix2 = prefix + entry_bytes(e);
        assert(s =~= prefix2 + entries_bytes(rest));
        assert(s.subrange(pos, pos + 8) =~= u64_bytes(e.term));
        assert(s.subrange(pos + 8, pos + 16) =~= u64_bytes(e.data.len() as u64));
        assert(s.subrange(pos + 16, pos + 16 + e.data.len()) =~= e.data);
        assert forall|i: int| 0 <= i < rest.len() implies #[trigger] rest[i].data.len()
            <= u64::MAX by {
            assert(rest[i] == log[i + 1]);
        }
        lemma_parse_entries_complete(prefix2, rest);
        assert(prefix2.len() == pos + 16 + e.data.len());
        assert(seq![EntryView { term: e.term, data: e.data }] + rest =~= log);
    }
}

/// A successful parse reads exactly the bytes of what it returns.
proof fn lemma_parse_entries_sound(s: Seq<u8>, pos: int, count: nat)
    requires
        parse_entries(s, pos, count) is Some,
    ensures
        0 <= pos <= s.len(),
        s.subrange(pos, s.len() as int) == entries_bytes(parse_entries(s, pos, count)->0),
        parse_entries(s, pos, count)->0.len() == count,
        forall|i: int|
            0 <= i < count ==> #[trigger] parse_entries(s, pos, count)->0[i].data.len()
                <= u64::MAX,
    decreases count,
{
    lemma_u64_bytes();
    if count == 0 {
        assert(s.subrange(pos, s.len() as int) =~= Seq::<u8>::empty());
    } else {
        let term = parse_u64(s, pos)->0;
        let len = parse_u64(s, pos + 8)->0;
        let next = pos + 16 + len;
        lemma_parse_entries_sound(s, next, (count - 1) as nat);
        let rest = parse_entries(s, next, (count - 1) as nat)->0;
        let e = EntryView { term, data: s.subrange(pos + 16, next) };
        let r = parse_entries(s, pos, count)->0;
        assert(r == seq![e] + rest);
        assert(r.skip(1) =~= rest);
        assert(r[0] == e);
        assert(u64_bytes(term) == s.subrange(pos, pos + 8));
        assert(u64_bytes(len) == s.subrange(pos + 8, pos + 16));
        assert(e.data.len() == len);
        assert(s.subrange(pos, s.len() as int) =~= s.subrange(pos, pos + 8) + s.subrange(
            pos + 8,
            pos + 16,
        ) + s.subrange(pos + 16, next) + s.subrange(next, s.len() as int));
        assert forall|i: int| 0 <= i < count implies #[trigger] r[i].data.len() <= u64::MAX by {
            if i > 0 {
                assert(r[i] == rest[i - 1]);
            }
        }
    }
}

/// Decoding the encoding of a state gives that state back.
proof fn lemma_decode_encode(ps: PersistentStateView)
    requires
        encodable(ps),
    ensures
        parse_state(state_bytes(ps)) == Some(ps),
{
    lemma_u64_bytes();
    let header = u64_bytes(ps.current_term) + u64_bytes(vote_code(ps.voted_for) as u64)
        + u64_bytes(ps.snapshot_index) + u64_bytes(ps.snapshot_term) + u64_bytes(
        ps.log.len() as u64,
    );
    let s = state_bytes(ps);
    assert(s == header + entries_bytes(ps.log));
    assert(header.len() == 40);
    assert(s.subrange(0, 8) =~= u64_bytes(ps.current_term));
    assert(s.subrange(8, 16) =~= u64_bytes(vote_code(ps.voted_for) as u64));
    assert(s.subrange(16, 24) =~= u64_bytes(ps.snapshot_index));
    assert(s.subrange(24, 32) =~= u64_bytes(ps.snapshot_term));
    assert(s.subrange(32, 40) =~= u64_bytes(ps.log.len() as u64));
    lemma_parse_entries_complete(header, ps.log);
}

/// Two states with the same bytes are the same state.
pub proof fn lemma_state_bytes_injective(a: PersistentStateView, b: PersistentStateView)
    requires
        encodable(a),
        encodable(b),
        state_bytes(a) == state_bytes(b),
    ensures
        a == b,
{
    lemma_decode_encode(a);
    lemma_decode_encode(b);
}

/// Whatever parses is the encoding of what it parses to.
proof fn lemma_parse_state_sound(s: Seq<u8>)
    requires
        parse_state(s) is Some,
    ensures
        encodable(parse_state(s)->0),
        state_bytes(parse_state(s)->0) == s,
{
    lemma_u64_bytes();
    let ps = parse_state(s)->0;
    let count = spec_u64_from_le_bytes(s.subrange(32, 40));
    lemma_parse_entries_sound(s, 40, count as nat);
    let vote = spec_u64_from_le_bytes(s.subrange(8, 16));
    assert(vote_code(ps.voted_for) == vote);
    assert(s =~= s.subrange(0, 8) + s.subrange(8, 16) + s.subrange(16, 24) + s.subrange(24, 32)
        + s.subrange(32, 40) + s.subrange(40, s.len() as int));
}

// ---- executable encoder and decoder ----

fn push_u64(out: &mut Vec<u8>, x: u64)
    ensures
        final(out)@ == old(out)@ + u64_bytes(x),
{
    let mut b = u64_to_le_bytes(x);
    out.append(&mut b);
}

/// Encodes a persistent state into its bytes.
pub fn encode_state(
    current_term: u64,
    voted_for: Option<usize>,
    snapshot_index: u64,
    snapshot_term: u64,
    log: &Vec<LogEntry>,
) -> (bytes: Vec<u8>)
    requires
        vote_code(voted_for) <= u64::MAX,
    ensures
        bytes@ == state_bytes(
            PersistentStateView {
                current_term,
                voted_for,
                snapshot_index,
                snapshot_term,
                log: entries_view(log@),
            },
        ),
{
    let mut out: Vec<u8> = Vec::new();
    push_u64(&mut out, current_term);
    let code: u64 = match voted_for {
        None => 0,
        Some(c) => (c as u64) + 1,
    };
    push_u64(&mut out, code);
    push_u64(&mut out, snapshot_index);
    push_u64(&mut out, snapshot_term);
    push_u64(&mut out, log.len() as u64);
    let ghost header = out@;
    let ghost all = entries_view(log@);
    let mut i: usize = 0;
    while i < log.len()
        invariant
            0 <= i <= log.len(),
            all == entries_view(log@),
            out@ + entries_bytes(all.skip(i as int)) == header + entries_bytes(all),
        decreases log.len() - i,
    {
        let e = &log[i];
        proof {
            let rest = all.skip(i as int);
            assert(rest[0] == e@);
            assert(rest.skip(1) =~= all.skip(i + 1));
        }
        push_u64(&mut out, e.term);
        push_u64(&mut out, e.data.len() as u64);
        let mut d = slice_to_vec(e.data.as_slice());
        out.append(&mut d);
        proof {
            assert(entry_bytes(e@) == u64_bytes(e.term) + u64_bytes(e.data@.len() as u64)
                + e.data@);
        }
        i = i + 1;
    }
    assert(all.skip(log.len() as int) =~= Seq::<EntryView>::empty());
    out
}

fn read_u64(bytes: &[u8], pos: usize) -> (r: Option<u64>)
    ensures
        r == parse_u64(bytes@, pos as int),
{
    if pos <= bytes.len() && bytes.len() - pos >= 8 {
        let sub = slice_subrange(bytes, pos, pos + 8);
        Some(u64_from_le_bytes(sub))
    } else {
        None
    }
}

/// Decodes a persistent state; `None` exactly when the bytes are the
/// encoding of no state.
pub fn decode_state(bytes: &[u8]) -> (r: Option<PersistentState>)
    ensures
        match r {
            Some(ps) => encodable(ps@) && state_bytes(ps@) == bytes@,
            None => forall|ps: PersistentStateView| encodable(ps) ==> state_bytes(ps) != bytes@,
        },
{
    let r = decode_state_inner(bytes);
    proof {
        if r is Some {
            lemma_parse_state_sound(bytes@);
        } else {
            {
                assert forall|ps: PersistentStateView| encodable(ps) implies state_bytes(ps)
                    != bytes@ by {
                    lemma_decode_encode(ps);
                }
            }
        }
    }
    r
}

fn decode_state_inner(bytes: &[u8]) -> (r: Option<PersistentState>)
    ensures
        match r {
            Some(ps) => parse_state(bytes@) == Some(ps@),
            None => parse_state(bytes@) is None,
        },
{
    if bytes.len() < 40 {
        return None;
    }
    let term = u64_from_le_bytes(slice_subrange(bytes, 0, 8));
    let vote = u64_from_le_bytes(slice_subrange(bytes, 8, 16));
    let si = u64_from_le_bytes(slice_subrange(bytes, 16, 24));
    let st = u64_from_le_bytes(slice_subrange(bytes, 24, 32));
    let count = u64_from_le_bytes(slice_subrange(bytes, 32, 40));
    let voted_for: Option<usize> = if vote == 0 {
        None
    } else if vote - 1 <= usize::MAX as u64 {
        Some((vote - 1) as usize)
    } else {
        return None;
    };
    let ghost s = bytes@;
    let mut log: Vec<LogEntry> = Vec::new();
    let mut pos: usize = 40;
    let mut k: u64 = 0;
    while k < count
        invariant
            s == bytes@,
            40 <= pos <= bytes.len(),
            k <= count,
            count == spec_u64_from_le_bytes(s.subrange(32, 40)),
            parse_entries(s, 40, count as nat) == match parse_entries(
                s,
                pos as int,
                (count - k) as nat,
            ) {
                Some(r) => Some(entries_view(log@) + r),
                None => None,
            },
        decreases count - k,
    {
        let t = read_u64(bytes, pos);
        if t.is_none() {
            return None;
        }
        let len = read_u64(bytes, pos + 8);
        match (t, len) {
            (Some(t), Some(len)) => {
                if ((bytes.len() - pos - 16) as u64) < len {
                    return None;
                }
                let next = pos + 16 + len as usize;
                let data = slice_to_vec(slice_subrange(bytes, pos + 16, next));
                let ghost old_log = entries_view(log@);
                log.push(LogEntry { term: t, data });
                proof {
                    let e = EntryView { term: t, data: s.subrange(pos + 16, next as int) };
                    assert(entries_view(log@) =~= old_log.push(e));
                    match parse_entries(s, next as int, (count - k - 1) as nat) {
                        Some(r) => {
                            assert(old_log + (seq![e] + r) =~= entries_view(log@) + r);
                        },
                        None => {},
                    }
                }
                pos = next;
                k = k + 1;
            },
            _ => {
                return None;
            },
        }
    }
    if pos != bytes.len() {
        return None;
    }
    proof {
        assert(entries_view(log@) + Seq::<EntryView>::empty() =~= entries_view(log@));
    }
    Some(PersistentState { current_term: term, voted_for, snapshot_index: si, snapshot_term: st, log })
}

} // verus!
