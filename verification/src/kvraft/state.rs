//! The replicated state machine of the key/value service.
//!
//! It holds the key/value pairs and, for each client, the number of the last
//! operation of that client that changed them. An operation that changes
//! the data and whose number is not above the client's last one is a retry
//! of one already applied, and is ignored: each operation takes effect once.
use vstd::prelude::*;
use vstd::bytes::spec_u64_from_le_bytes;
use vstd::string::StringExecFns;
use vstd::utf8::*;
use crate::raft::codec::u64_bytes;
use super::codec::{
    decode_frame, encode_frame, fields_view, frame_bytes, framable, lemma_field_round_trips,
    lemma_parse_frame, parse_frame, string_bytes, string_of_bytes, u64_field, u64_of_field,
};
use super::command::{Command, CommandView, OpKind};

verus! {

broadcast use vstd::seq_lib::group_seq_properties;

// ---- association lists keyed by strings ----

/// No key occurs twice.
pub open spec fn distinct_keys<V>(s: Seq<(String, V)>) -> bool {
    forall|i: int, j: int|
        0 <= i < s.len() && 0 <= j < s.len() && i != j ==> (#[trigger] s[i]).0@ != (
        #[trigger] s[j]).0@
}

/// Some entry has key `k`.
pub open spec fn has_key<V>(s: Seq<(String, V)>, k: Seq<char>) -> bool {
    exists|i: int| 0 <= i < s.len() && (#[trigger] s[i]).0@ == k
}

/// The map that an association list stands for.
pub open spec fn assoc_map<V: View>(s: Seq<(String, V)>) -> Map<Seq<char>, V::V> {
    Map::new(
        |k: Seq<char>| has_key(s, k),
        |k: Seq<char>| s[choose|i: int| 0 <= i < s.len() && (#[trigger] s[i]).0@ == k].1@,
    )
}

proof fn lemma_entry_in_map<V: View>(s: Seq<(String, V)>, i: int)
    requires
        distinct_keys(s),
        0 <= i < s.len(),
    ensures
        assoc_map(s).contains_key(s[i].0@),
        assoc_map(s)[s[i].0@] == s[i].1@,
{
    assert(has_key(s, s[i].0@));
    let j = choose|j: int| 0 <= j < s.len() && (#[trigger] s[j]).0@ == s[i].0@;
    assert(j == i);
}

fn assoc_find<V>(list: &Vec<(String, V)>, key: &String) -> (pos: Option<usize>)
    ensures
        match pos {
            Some(i) => i < list.len() && list@[i as int].0@ == key@,
            None => !has_key(list@, key@),
        },
{
    let mut i: usize = 0;
    while i < list.len()
        invariant
            i <= list.len(),
            forall|j: int| 0 <= j < i ==> (#[trigger] list@[j]).0@ != key@,
        decreases list.len() - i,
    {
        if list[i].0 == *key {
            return Some(i);
        }
        i = i + 1;
    }
    None
}

fn assoc_put<V: View>(list: &mut Vec<(String, V)>, key: String, value: V)
    requires
        distinct_keys(old(list)@),
    ensures
        distinct_keys(final(list)@),
        assoc_map(final(list)@) == assoc_map(old(list)@).insert(key@, value@),
{
    let ghost k = key@;
    let ghost before = list@;
    let ghost v = value@;
    let pos = assoc_find(list, &key);
    match pos {
        Some(i) => {
            list.set(i, (key, value));
        },
        None => {
            list.push((key, value));
        },
    }
    let ghost after = list@;
    let ghost target = assoc_map(before).insert(k, v);
    assert forall|c: Seq<char>| #[trigger] assoc_map(after).contains_key(c) == target.contains_key(c) by {
        if assoc_map(after).contains_key(c) {
            let j = choose|j: int| 0 <= j < after.len() && (#[trigger] after[j]).0@ == c;
            if c != k {
                assert(before[j] == after[j]);
                lemma_entry_in_map(before, j);
            }
        }
        if target.contains_key(c) && c != k {
            let j = choose|j: int| 0 <= j < before.len() && (#[trigger] before[j]).0@ == c;
            assert(after[j] == before[j]);
            lemma_entry_in_map(after, j);
        }
        if c == k {
            let j = match pos {
                Some(i) => i as int,
                None => before.len() as int,
            };
            lemma_entry_in_map(after, j);
        }
    }
    assert forall|c: Seq<char>| #[trigger] assoc_map(after).contains_key(c) implies assoc_map(after)[c]
        == target[c] by {
        let j = choose|j: int| 0 <= j < after.len() && (#[trigger] after[j]).0@ == c;
        lemma_entry_in_map(after, j);
        if c != k {
            assert(before[j] == after[j]);
            lemma_entry_in_map(before, j);
        }
    }
    assert(assoc_map(after) =~= target);
}

/// The keys of an association list, in order.
pub open spec fn keys_view<V>(s: Seq<(String, V)>) -> Seq<Seq<char>> {
    s.map_values(|r: (String, V)| r.0@)
}

/// The views of the values of an association list, in order.
pub open spec fn values_view<V: View>(s: Seq<(String, V)>) -> Seq<V::V> {
    s.map_values(|r: (String, V)| r.1@)
}

/// The map that inserts the pairs of `ks` and `vs` one after the other.
pub open spec fn pairs_map<V>(ks: Seq<Seq<char>>, vs: Seq<V>) -> Map<Seq<char>, V>
    decreases ks.len(),
{
    if ks.len() == 0 {
        Map::empty()
    } else {
        pairs_map(ks.drop_last(), vs.drop_last()).insert(ks.last(), vs[ks.len() - 1])
    }
}

proof fn lemma_pairs_map_assoc<V: View>(s: Seq<(String, V)>)
    requires
        distinct_keys(s),
    ensures
        pairs_map(keys_view(s), values_view(s)) == assoc_map(s),
    decreases s.len(),
{
    if s.len() == 0 {
        assert(assoc_map(s) =~= Map::empty());
    } else {
        let t = s.drop_last();
        let n = s.len() - 1;
        assert(keys_view(s).drop_last() =~= keys_view(t));
        assert(values_view(s).drop_last() =~= values_view(t));
        lemma_pairs_map_assoc(t);
        let target = assoc_map(t).insert(s[n].0@, s[n].1@);
        assert forall|c: Seq<char>| #[trigger] assoc_map(s).contains_key(c) == target.contains_key(c) by {
            if assoc_map(s).contains_key(c) && c != s[n].0@ {
                let j = choose|j: int| 0 <= j < s.len() && (#[trigger] s[j]).0@ == c;
                assert(t[j] == s[j]);
                lemma_entry_in_map(t, j);
            }
            if target.contains_key(c) && c != s[n].0@ {
                let j = choose|j: int| 0 <= j < t.len() && (#[trigger] t[j]).0@ == c;
                assert(t[j] == s[j]);
                lemma_entry_in_map(s, j);
            }
            if c == s[n].0@ {
                lemma_entry_in_map(s, n);
            }
        }
        assert forall|c: Seq<char>| #[trigger] assoc_map(s).contains_key(c) implies assoc_map(s)[c]
            == target[c] by {
            let j = choose|j: int| 0 <= j < s.len() && (#[trigger] s[j]).0@ == c;
            lemma_entry_in_map(s, j);
            if c != s[n].0@ {
                assert(t[j] == s[j]);
                lemma_entry_in_map(t, j);
            } else {
                assert(j == n);
            }
        }
        assert(assoc_map(s) =~= target);
    }
}

// ---- the state machine ----

/// The mathematical value of the state machine.
pub struct KvStateView {
    pub data: Map<Seq<char>, Seq<char>>,
    pub sessions: Map<Seq<char>, u64>,
}

/// The value of `key`, empty where it has none.
pub open spec fn current_value(s: KvStateView, key: Seq<char>) -> Seq<char> {
    if s.data.contains_key(key) {
        s.data[key]
    } else {
        Seq::empty()
    }
}

/// A command that changes the data and that its client has already had
/// applied.
pub open spec fn is_duplicate(s: KvStateView, c: CommandView) -> bool {
    &&& c.kind != OpKind::Get
    &&& s.sessions.contains_key(c.client)
    &&& c.seq <= s.sessions[c.client]
}

/// The state after a command, and what it answers: a get answers the
/// value, a put sets it, an append extends it; a duplicate changes nothing.
pub open spec fn apply_spec(s: KvStateView, c: CommandView) -> (KvStateView, Seq<char>) {
    if c.kind == OpKind::Get {
        (s, current_value(s, c.key))
    } else if is_duplicate(s, c) {
        (s, Seq::empty())
    } else {
        let v = if c.kind == OpKind::Put {
            c.value
        } else {
            current_value(s, c.key) + c.value
        };
        (
            KvStateView { data: s.data.insert(c.key, v), sessions: s.sessions.insert(c.client, c.seq) },
            Seq::empty(),
        )
    }
}

/// The strings that UTF-8 fields hold, if they are all valid.
pub open spec fn strings_of(fs: Seq<Seq<u8>>) -> Option<Seq<Seq<char>>> {
    if forall|i: int| 0 <= i < fs.len() ==> valid_utf8(#[trigger] fs[i]) {
        Some(fs.map_values(|f: Seq<u8>| decode_utf8(f)))
    } else {
        None
    }
}

/// The numbers that eight-byte fields hold, if they all have eight bytes.
pub open spec fn u64s_of(fs: Seq<Seq<u8>>) -> Option<Seq<u64>> {
    if forall|i: int| 0 <= i < fs.len() ==> (#[trigger] fs[i]).len() == 8 {
        Some(fs.map_values(|f: Seq<u8>| spec_u64_from_le_bytes(f)))
    } else {
        None
    }
}

/// The state that snapshot bytes hold, if they hold one: a frame of four
/// frames, the keys, the values, the clients and their last numbers.
pub open spec fn parse_snapshot(b: Seq<u8>) -> Option<KvStateView> {
    match parse_frame(b) {
        None => None,
        Some(fs) => if fs.len() != 4 {
            None
        } else {
            match (parse_frame(fs[0]), parse_frame(fs[1]), parse_frame(fs[2]), parse_frame(fs[3])) {
                (Some(kf), Some(vf), Some(cf), Some(sf)) => match (
                    strings_of(kf),
                    strings_of(vf),
                    strings_of(cf),
                    u64s_of(sf),
                ) {
                    (Some(ks), Some(vs), Some(cs), Some(ss)) => if ks.len() == vs.len() && cs.len()
                        == ss.len() {
                        Some(KvStateView { data: pairs_map(ks, vs), sessions: pairs_map(cs, ss) })
                    } else {
                        None
                    },
                    _ => None,
                },
                _ => None,
            }
        },
    }
}

/// The UTF-8 fields of strings.
pub open spec fn utf8_fields(ss: Seq<Seq<char>>) -> Seq<Seq<u8>> {
    ss.map_values(|s: Seq<char>| encode_utf8(s))
}

/// The eight-byte fields of numbers.
pub open spec fn u64_fields(xs: Seq<u64>) -> Seq<Seq<u8>> {
    xs.map_values(|x: u64| u64_bytes(x))
}

/// The data and the sessions of the service, each an association list.
pub struct KvStateMachine {
    data: Vec<(String, String)>,
    sessions: Vec<(String, u64)>,
}

impl View for KvStateMachine {
    type V = KvStateView;

    closed spec fn view(&self) -> KvStateView {
        KvStateView { data: assoc_map(self.data@), sessions: assoc_map(self.sessions@) }
    }
}

/// Strings from UTF-8 fields; `None` when one of them is not valid.
fn strings_from_fields(fs: &Vec<Vec<u8>>) -> (r: Option<Vec<String>>)
    ensures
        match r {
            Some(v) => strings_of(fields_view(fs@)) == Some(v@.map_values(|s: String| s@)),
            None => strings_of(fields_view(fs@)) is None,
        },
{
    let ghost fv = fields_view(fs@);
    let mut out: Vec<String> = Vec::new();
    let mut i: usize = 0;
    while i < fs.len()
        invariant
            i <= fs.len(),
            fv == fields_view(fs@),
            out.len() == i,
            forall|j: int| 0 <= j < i ==> valid_utf8(#[trigger] fv[j]),
            forall|j: int| 0 <= j < i ==> (#[trigger] out@[j])@ == decode_utf8(fv[j]),
        decreases fs.len() - i,
    {
        match string_of_bytes(fs[i].clone()) {
            None => {
                assert(fv[i as int] == fs@[i as int]@);
                assert(!valid_utf8(fv[i as int]));
                return None;
            },
            Some(s) => {
                out.push(s);
            },
        }
        i = i + 1;
    }
    assert(out@.map_values(|s: String| s@) =~= fv.map_values(|f: Seq<u8>| decode_utf8(f)));
    Some(out)
}

/// Numbers from eight-byte fields; `None` when one of them is not eight
/// bytes long.
fn u64s_from_fields(fs: &Vec<Vec<u8>>) -> (r: Option<Vec<u64>>)
    ensures
        match r {
            Some(v) => u64s_of(fields_view(fs@)) == Some(v@),
            None => u64s_of(fields_view(fs@)) is None,
        },
{
    let ghost fv = fields_view(fs@);
    let mut out: Vec<u64> = Vec::new();
    let mut i: usize = 0;
    while i < fs.len()
        invariant
            i <= fs.len(),
            fv == fields_view(fs@),
            out.len() == i,
            forall|j: int| 0 <= j < i ==> (#[trigger] fv[j]).len() == 8,
            forall|j: int| 0 <= j < i ==> out@[j] == spec_u64_from_le_bytes(#[trigger] fv[j]),
        decreases fs.len() - i,
    {
        match u64_of_field(&fs[i]) {
            None => {
                assert(fv[i as int] == fs@[i as int]@);
                return None;
            },
            Some(x) => {
                out.push(x);
            },
        }
        i = i + 1;
    }
    assert(out@ =~= fv.map_values(|f: Seq<u8>| spec_u64_from_le_bytes(f)));
    Some(out)
}

impl KvStateMachine {
    #[verifier::type_invariant]
    spec fn wf(&self) -> bool {
        distinct_keys(self.data@) && distinct_keys(self.sessions@)
    }

    /// A state machine with no data and no sessions.
    pub fn new() -> (m: KvStateMachine)
        ensures
            m@.data == Map::<Seq<char>, Seq<char>>::empty(),
            m@.sessions == Map::<Seq<char>, u64>::empty(),
    {
        let m = KvStateMachine { data: Vec::new(), sessions: Vec::new() };
        assert(assoc_map(m.data@) =~= Map::<Seq<char>, Seq<char>>::empty());
        assert(assoc_map(m.sessions@) =~= Map::<Seq<char>, u64>::empty());
        m
    }

    /// The value of `key`, empty where it has none.
    pub fn get(&self, key: &String) -> (v: String)
        ensures
            v@ == current_value(self@, key@),
    {
        proof {
            use_type_invariant(self);
        }
        match assoc_find(&self.data, key) {
            Some(i) => {
                proof {
                    lemma_entry_in_map(self.data@, i as int);
                }
                self.data[i].1.clone()
            },
            None => String::new(),
        }
    }

    /// The number of the last operation of `client` that changed the data.
    pub fn last_seq(&self, client: &String) -> (s: Option<u64>)
        ensures
            match s {
                Some(n) => self@.sessions.contains_key(client@) && self@.sessions[client@] == n,
                None => !self@.sessions.contains_key(client@),
            },
    {
        proof {
            use_type_invariant(self);
        }
        match assoc_find(&self.sessions, client) {
            Some(i) => {
                proof {
                    lemma_entry_in_map(self.sessions@, i as int);
                }
                Some(self.sessions[i].1)
            },
            None => None,
        }
    }

    /// Applies one command and gives back what it answers.
    pub fn apply(&mut self, c: &Command) -> (reply: String)
        ensures
            (final(self)@, reply@) == apply_spec(old(self)@, c@),
    {
        proof {
            use_type_invariant(&*self);
        }
        let current = self.get(&c.key);
        if c.kind == OpKind::Get {
            return current;
        }
        let dup = match self.last_seq(&c.client) {
            Some(n) => c.seq <= n,
            None => false,
        };
        if dup {
            return String::new();
        }
        let v = if c.kind == OpKind::Put {
            c.value.clone()
        } else {
            let mut v = current;
            v.append(c.value.as_str());
            v
        };
        let mut data = Vec::new();
        std::mem::swap(&mut data, &mut self.data);
        assoc_put(&mut data, c.key.clone(), v);
        self.data = data;
        let mut sessions = Vec::new();
        std::mem::swap(&mut sessions, &mut self.sessions);
        assoc_put(&mut sessions, c.client.clone(), c.seq);
        self.sessions = sessions;
        String::new()
    }

    /// The snapshot bytes of this state, in the order in which it holds its
    /// entries.
    pub closed spec fn snapshot_bytes(&self) -> Seq<u8> {
        frame_bytes(
            seq![
                frame_bytes(utf8_fields(keys_view(self.data@))),
                frame_bytes(utf8_fields(values_view(self.data@))),
                frame_bytes(utf8_fields(keys_view(self.sessions@))),
                frame_bytes(u64_fields(values_view(self.sessions@))),
            ],
        )
    }

    /// Encodes this state as a snapshot, which reads back as this state.
    pub fn encode(&self) -> (b: Vec<u8>)
        ensures
            b@ == self.snapshot_bytes(),
            parse_snapshot(b@) == Some(self@),
    {
        proof {
            use_type_invariant(self);
            lemma_field_round_trips();
        }
        let mut keys: Vec<Vec<u8>> = Vec::new();
        let mut values: Vec<Vec<u8>> = Vec::new();
        let mut i: usize = 0;
        while i < self.data.len()
            invariant
                i <= self.data.len(),
                keys.len() == i,
                values.len() == i,
                forall|j: int| 0 <= j < i ==> (#[trigger] keys@[j])@ == encode_utf8(self.data@[j].0@),
                forall|j: int| 0 <= j < i ==> (#[trigger] values@[j])@ == encode_utf8(self.data@[j].1@),
                forall|j: int| 0 <= j < i ==> (#[trigger] keys@[j])@.len() <= u64::MAX,
                forall|j: int| 0 <= j < i ==> (#[trigger] values@[j])@.len() <= u64::MAX,
            decreases self.data.len() - i,
        {
            keys.push(string_bytes(&self.data[i].0));
            values.push(string_bytes(&self.data[i].1));
            i = i + 1;
        }
        let mut clients: Vec<Vec<u8>> = Vec::new();
        let mut seqs: Vec<Vec<u8>> = Vec::new();
        let mut i: usize = 0;
        while i < self.sessions.len()
            invariant
                i <= self.sessions.len(),
                clients.len() == i,
                seqs.len() == i,
                forall|j: int| 0 <= j < i ==> (#[trigger] clients@[j])@ == encode_utf8(self.sessions@[j].0@),
                forall|j: int| 0 <= j < i ==> (#[trigger] seqs@[j])@ == u64_bytes(self.sessions@[j].1),
                forall|j: int| 0 <= j < i ==> (#[trigger] clients@[j])@.len() <= u64::MAX,
            decreases self.sessions.len() - i,
        {
            clients.push(string_bytes(&self.sessions[i].0));
            seqs.push(u64_field(self.sessions[i].1));
            i = i + 1;
        }
        let ghost kf = utf8_fields(keys_view(self.data@));
        let ghost vf = utf8_fields(values_view(self.data@));
        let ghost cf = utf8_fields(keys_view(self.sessions@));
        let ghost sf = u64_fields(values_view(self.sessions@));
        assert(fields_view(keys@) =~= kf);
        assert(fields_view(values@) =~= vf);
        assert(fields_view(clients@) =~= cf);
        assert(fields_view(seqs@) =~= sf);
        let kb = encode_frame(&keys);
        let vb = encode_frame(&values);
        let cb = encode_frame(&clients);
        let sb = encode_frame(&seqs);
        let kn = kb.len();
        let vn = vb.len();
        let cn = cb.len();
        let sn = sb.len();
        assert(kn as int <= u64::MAX && vn as int <= u64::MAX && cn as int <= u64::MAX && sn as int
            <= u64::MAX);
        let mut outer: Vec<Vec<u8>> = Vec::new();
        outer.push(kb);
        outer.push(vb);
        outer.push(cb);
        outer.push(sb);
        let ghost of = seq![frame_bytes(kf), frame_bytes(vf), frame_bytes(cf), frame_bytes(sf)];
        assert(fields_view(outer@) =~= of);
        let b = encode_frame(&outer);
        proof {
            lemma_parse_frame(of);
            lemma_parse_frame(kf);
            lemma_parse_frame(vf);
            lemma_parse_frame(cf);
            lemma_parse_frame(sf);
            assert(strings_of(kf) == Some(keys_view(self.data@))) by {
                assert(kf.map_values(|f: Seq<u8>| decode_utf8(f)) =~= keys_view(self.data@));
            }
            assert(strings_of(vf) == Some(values_view(self.data@))) by {
                assert(vf.map_values(|f: Seq<u8>| decode_utf8(f)) =~= values_view(self.data@));
            }
            assert(strings_of(cf) == Some(keys_view(self.sessions@))) by {
                assert(cf.map_values(|f: Seq<u8>| decode_utf8(f)) =~= keys_view(self.sessions@));
            }
            assert(u64s_of(sf) == Some(values_view(self.sessions@))) by {
                assert(sf.map_values(|f: Seq<u8>| spec_u64_from_le_bytes(f)) =~= values_view(
                    self.sessions@,
                ));
            }
            lemma_pairs_map_assoc(self.data@);
            lemma_pairs_map_assoc(self.sessions@);
        }
        b
    }

    /// Decodes a snapshot; `None` exactly when the bytes hold no state.
    pub fn decode(b: &[u8]) -> (r: Option<KvStateMachine>)
        ensures
            match r {
                Some(m) => parse_snapshot(b@) == Some(m@),
                None => parse_snapshot(b@) is None,
            },
    {
        let outer = match decode_frame(b) {
            None => {
                return None;
            },
            Some(fs) => fs,
        };
        if outer.len() != 4 {
            return None;
        }
        let ghost of = fields_view(outer@);
        assert(of[0] == outer@[0]@ && of[1] == outer@[1]@ && of[2] == outer@[2]@ && of[3]
            == outer@[3]@);
        let kf = match decode_frame(outer[0].as_slice()) {
            None => {
                return None;
            },
            Some(fs) => fs,
        };
        let vf = match decode_frame(outer[1].as_slice()) {
            None => {
                return None;
            },
            Some(fs) => fs,
        };
        let cf = match decode_frame(outer[2].as_slice()) {
            None => {
                return None;
            },
            Some(fs) => fs,
        };
        let sf = match decode_frame(outer[3].as_slice()) {
            None => {
                return None;
            },
            Some(fs) => fs,
        };
        let ks = match strings_from_fields(&kf) {
            None => {
                return None;
            },
            Some(v) => v,
        };
        let vs = match strings_from_fields(&vf) {
            None => {
                return None;
            },
            Some(v) => v,
        };
        let cs = match strings_from_fields(&cf) {
            None => {
                return None;
            },
            Some(v) => v,
        };
        let ss = match u64s_from_fields(&sf) {
            None => {
                return None;
            },
            Some(v) => v,
        };
        if ks.len() != vs.len() || cs.len() != ss.len() {
            return None;
        }
        let ghost ksv = ks@.map_values(|s: String| s@);
        let ghost vsv = vs@.map_values(|s: String| s@);
        let ghost csv = cs@.map_values(|s: String| s@);
        let mut data: Vec<(String, String)> = Vec::new();
        let mut i: usize = 0;
        while i < ks.len()
            invariant
                i <= ks.len(),
                ks.len() == vs.len(),
                ksv == ks@.map_values(|s: String| s@),
                vsv == vs@.map_values(|s: String| s@),
                distinct_keys(data@),
                assoc_map(data@) == pairs_map(ksv.take(i as int), vsv.take(i as int)),
            decreases ks.len() - i,
        {
            assoc_put(&mut data, ks[i].clone(), vs[i].clone());
            proof {
                assert(ksv.take(i + 1).drop_last() =~= ksv.take(i as int));
                assert(vsv.take(i + 1).drop_last() =~= vsv.take(i as int));
            }
            i = i + 1;
        }
        assert(ksv.take(ks.len() as int) =~= ksv);
        assert(vsv.take(ks.len() as int) =~= vsv);
        let mut sessions: Vec<(String, u64)> = Vec::new();
        let mut i: usize = 0;
        while i < cs.len()
            invariant
                i <= cs.len(),
                cs.len() == ss.len(),
                csv == cs@.map_values(|s: String| s@),
                distinct_keys(sessions@),
                assoc_map(sessions@) == pairs_map(csv.take(i as int), ss@.take(i as int)),
            decreases cs.len() - i,
        {
            assoc_put(&mut sessions, cs[i].clone(), ss[i]);
            proof {
                assert(csv.take(i + 1).drop_last() =~= csv.take(i as int));
                assert(ss@.take(i + 1).drop_last() =~= ss@.take(i as int));
            }
            i = i + 1;
        }
        assert(csv.take(cs.len() as int) =~= csv);
        assert(ss@.take(cs.len() as int) =~= ss@);
        Some(KvStateMachine { data, sessions })
    }
}

} // verus!
