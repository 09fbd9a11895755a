//! The byte layouts of the key/value service: commands as they travel
//! through the Raft log, and snapshots of the state machine.
//!
//! Both are frames: a little-endian `u64` count, then each field as a
//! little-endian `u64` length followed by its bytes. Strings are fields of
//! UTF-8, numbers fields of eight little-endian bytes.
use vstd::prelude::*;
use vstd::bytes::*;
use vstd::slice::*;
use vstd::utf8::*;
use crate::raft::codec::u64_bytes;

verus! {

broadcast use vstd::seq_lib::group_seq_properties;

/// The bytes of a frame.
pub open spec fn frame_bytes(fs: Seq<Seq<u8>>) -> Seq<u8> {
    u64_bytes(fs.len() as u64) + fields_bytes(fs)
}

/// The fields of a frame, one after the other, each after its length.
pub open spec fn fields_bytes(fs: Seq<Seq<u8>>) -> Seq<u8>
    decreases fs.len(),
{
    if fs.len() == 0 {
        Seq::empty()
    } else {
        u64_bytes(fs[0].len() as u64) + fs[0] + fields_bytes(fs.skip(1))
    }
}

/// A list of fields that a frame can hold: every count fits in a `u64`.
pub open spec fn framable(fs: Seq<Seq<u8>>) -> bool {
    &&& fs.len() <= u64::MAX
    &&& forall|i: int| 0 <= i < fs.len() ==> #[trigger] fs[i].len() <= u64::MAX
}

/// The number at `pos`, if eight bytes are there.
pub open spec fn parse_u64_at(s: Seq<u8>, pos: int) -> Option<u64> {
    if 0 <= pos && pos + 8 <= s.len() {
        Some(spec_u64_from_le_bytes(s.subrange(pos, pos + 8)))
    } else {
        None
    }
}

/// Reads `count` fields from position `pos`, which must end the bytes.
pub closed spec fn parse_fields(s: Seq<u8>, pos: int, count: nat) -> Option<Seq<Seq<u8>>>
    decreases count,
{
    if count == 0 {
        if pos == s.len() {
            Some(Seq::empty())
        } else {
            None
        }
    } else {
        match parse_u64_at(s, pos) {
            None => None,
            Some(len) => if pos + 8 + len <= s.len() {
                match parse_fields(s, pos + 8 + len, (count - 1) as nat) {
                    None => None,
                    Some(rest) => Some(seq![s.subrange(pos + 8, pos + 8 + len)] + rest),
                }
            } else {
                None
            },
        }
    }
}

/// The fields of a frame, if the bytes are one.
pub open spec fn parse_frame(s: Seq<u8>) -> Option<Seq<Seq<u8>>> {
    match parse_u64_at(s, 0) {
        None => None,
        Some(count) => parse_fields(s, 8, count as nat),
    }
}

proof fn lemma_u64_bytes()
    ensures
        forall|x: u64| #[trigger] u64_bytes(x).len() == 8,
        forall|x: u64| spec_u64_from_le_bytes(#[trigger] u64_bytes(x)) == x,
{
    lemma_auto_spec_u64_to_from_le_bytes();
}

proof fn lemma_parse_fields_complete(prefix: Seq<u8>, fs: Seq<Seq<u8>>)
    requires
        forall|i: int| 0 <= i < fs.len() ==> #[trigger] fs[i].len() <= u64::MAX,
    ensures
        parse_fields(prefix + fields_bytes(fs), prefix.len() as int, fs.len()) == Some(fs),
    decreases fs.len(),
{
    lemma_u64_bytes();
    let s = prefix + fields_bytes(fs);
    let pos = prefix.len() as int;
    if fs.len() == 0 {
        assert(s =~= prefix);
    } else {
        let f = fs[0];
        let rest = fs.skip(1);
        let prefix2 = prefix + u64_bytes(f.len() as u64) + f;
        assert(s =~= prefix2 + fields_bytes(rest));
        assert(s.subrange(pos, pos + 8) =~= u64_bytes(f.len() as u64));
        assert(s.subrange(pos + 8, pos + 8 + f.len()) =~= f);
        assert forall|i: int| 0 <= i < rest.len() implies #[trigger] rest[i].len() <= u64::MAX by {
            assert(rest[i] == fs[i + 1]);
        }
        lemma_parse_fields_complete(prefix2, rest);
        assert(seq![f] + rest =~= fs);
    }
}

/// A frame reads back as the fields it was made of.
pub proof fn lemma_parse_frame(fs: Seq<Seq<u8>>)
    requires
        framable(fs),
    ensures
        parse_frame(frame_bytes(fs)) == Some(fs),
{
    lemma_u64_bytes();
    let s = frame_bytes(fs);
    assert(s.subrange(0, 8) =~= u64_bytes(fs.len() as u64));
    lemma_parse_fields_complete(u64_bytes(fs.len() as u64), fs);
}

// ---- executable framing ----

fn push_u64(out: &mut Vec<u8>, x: u64)
    ensures
        final(out)@ == old(out)@ + u64_bytes(x),
{
    let mut b = u64_to_le_bytes(x);
    out.append(&mut b);
}

/// The views of a vector of byte strings.
pub open spec fn fields_view(fs: Seq<Vec<u8>>) -> Seq<Seq<u8>> {
    fs.map_values(|f: Vec<u8>| f@)
}

/// Encodes a list of fields as a frame.
pub fn encode_frame(fields: &Vec<Vec<u8>>) -> (bytes: Vec<u8>)
    requires
        framable(fields_view(fields@)),
    ensures
        bytes@ == frame_bytes(fields_view(fields@)),
{
    let ghost all = fields_view(fields@);
    let mut out: Vec<u8> = Vec::new();
    push_u64(&mut out, fields.len() as u64);
    let ghost header = out@;
    let mut i: usize = 0;
    while i < fields.len()
        invariant
            0 <= i <= fields.len(),
            all == fields_view(fields@),
            framable(all),
            out@ + fields_bytes(all.skip(i as int)) == header + fields_bytes(all),
        decreases fields.len() - i,
    {
        let f = &fields[i];
        proof {
            let rest = all.skip(i as int);
            assert(rest[0] == f@);
            assert(rest.skip(1) =~= all.skip(i + 1));
            assert(all[i as int].len() <= u64::MAX);
        }
        push_u64(&mut out, f.len() as u64);
        let mut d = slice_to_vec(f.as_slice());
        out.append(&mut d);
        i = i + 1;
    }
    assert(all.skip(fields.len() as int) =~= Seq::<Seq<u8>>::empty());
    out
}

fn read_u64_at(bytes: &[u8], pos: usize) -> (r: Option<u64>)
    ensures
        r == parse_u64_at(bytes@, pos as int),
{
    if pos <= bytes.len() && bytes.len() - pos >= 8 {
        Some(u64_from_le_bytes(slice_subrange(bytes, pos, pos + 8)))
    } else {
        None
    }
}

/// Decodes a frame into its fields; `None` exactly when the bytes are no
/// frame.
pub fn decode_frame(bytes: &[u8]) -> (r: Option<Vec<Vec<u8>>>)
    ensures
        match r {
            Some(fs) => parse_frame(bytes@) == Some(fields_view(fs@)),
            None => parse_frame(bytes@) is None,
        },
{
    let count = match read_u64_at(bytes, 0) {
        None => {
            return None;
        },
        Some(c) => c,
    };
    let ghost s = bytes@;
    let mut fields: Vec<Vec<u8>> = Vec::new();
    let mut pos: usize = 8;
    let mut k: u64 = 0;
    while k < count
        invariant
            s == bytes@,
            8 <= pos <= bytes.len(),
            k <= count,
            parse_frame(s) == match parse_fields(s, pos as int, (count - k) as nat) {
                Some(r) => Some(fields_view(fields@) + r),
                None => None,
            },
        decreases count - k,
    {
        let len = match read_u64_at(bytes, pos) {
            None => {
                return None;
            },
            Some(l) => l,
        };
        if ((bytes.len() - pos - 8) as u64) < len {
            return None;
        }
        let next = pos + 8 + len as usize;
        let f = slice_to_vec(slice_subrange(bytes, pos + 8, next));
        let ghost before = fields_view(fields@);
        fields.push(f);
        proof {
            let g = s.subrange(pos + 8, next as int);
            assert(fields_view(fields@) =~= before.push(g));
            match parse_fields(s, next as int, (count - k - 1) as nat) {
                Some(r) => {
                    assert(before + (seq![g] + r) =~= fields_view(fields@) + r);
                },
                None => {},
            }
        }
        pos = next;
        k = k + 1;
    }
    if pos != bytes.len() {
        return None;
    }
    proof {
        assert(fields_view(fields@) + Seq::<Seq<u8>>::empty() =~= fields_view(fields@));
    }
    Some(fields)
}

// ---- strings and numbers as fields ----

/// `String::from_utf8` of std: the bytes as a string when they are valid
/// UTF-8, and `None` when they are not. The string holds exactly the
/// characters that the bytes encode.
#[verifier::external_body]
fn string_from_utf8(bytes: Vec<u8>) -> (s: Option<String>)
    ensures
        s is Some <==> valid_utf8(bytes@),
        s matches Some(t) ==> t@ == decode_utf8(bytes@),
{
    match String::from_utf8(bytes) {
        Ok(s) => Some(s),
        Err(_) => None,
    }
}

/// The UTF-8 bytes of a string.
pub fn string_bytes(s: &String) -> (b: Vec<u8>)
    ensures
        b@ == encode_utf8(s@),
        b@.len() <= u64::MAX,
{
    let b = slice_to_vec(s.as_str().as_bytes());
    let n = b.len();
    assert(n as int <= u64::MAX);
    b
}

/// The string that UTF-8 bytes encode, if they are valid.
pub fn string_of_bytes(b: Vec<u8>) -> (s: Option<String>)
    ensures
        s is Some <==> valid_utf8(b@),
        s matches Some(t) ==> t@ == decode_utf8(b@),
{
    string_from_utf8(b)
}

/// The number that eight little-endian bytes hold.
pub fn u64_of_field(f: &Vec<u8>) -> (x: Option<u64>)
    ensures
        x is Some <==> f@.len() == 8,
        x matches Some(v) ==> v == spec_u64_from_le_bytes(f@),
{
    if f.len() == 8 {
        Some(u64_from_le_bytes(f.as_slice()))
    } else {
        None
    }
}

/// The eight little-endian bytes of a number, as a field.
pub fn u64_field(x: u64) -> (f: Vec<u8>)
    ensures
        f@ == u64_bytes(x),
{
    u64_to_le_bytes(x)
}

/// Strings and numbers come back from their fields.
pub proof fn lemma_field_round_trips()
    ensures
        forall|s: Seq<char>| #[trigger] valid_utf8(encode_utf8(s)) && decode_utf8(encode_utf8(s)) == s,
        forall|x: u64| #[trigger] u64_bytes(x).len() == 8 && spec_u64_from_le_bytes(u64_bytes(x)) == x,
{
    broadcast use encode_utf8_valid_utf8, encode_utf8_decode_utf8;

    lemma_u64_bytes();
}

} // verus!
