//! The operations that clients ask for, and the commands that carry them
//! through the Raft log.
use vstd::prelude::*;
use vstd::bytes::spec_u64_from_le_bytes;
use vstd::utf8::*;
use crate::raft::codec::u64_bytes;
use super::codec::{
    decode_frame, encode_frame, fields_view, frame_bytes, framable, lemma_field_round_trips,
    lemma_parse_frame, parse_frame, string_bytes, string_of_bytes, u64_field, u64_of_field,
};

verus! {

/// What an operation does.
#[derive(Clone, Copy, PartialEq, Eq, Structural, Debug)]
pub enum OpKind {
    Get,
    Put,
    Append,
}

/// One operation of one client: the client's name, the number of the
/// operation among that client's operations, and what it does to which key.
#[derive(Debug)]
pub struct Command {
    pub client: String,
    pub seq: u64,
    pub kind: OpKind,
    pub key: String,
    pub value: String,
}

/// The mathematical value of a command.
pub struct CommandView {
    pub client: Seq<char>,
    pub seq: u64,
    pub kind: OpKind,
    pub key: Seq<char>,
    pub value: Seq<char>,
}

impl View for Command {
    type V = CommandView;

    open spec fn view(&self) -> CommandView {
        CommandView {
            client: self.client@,
            seq: self.seq,
            kind: self.kind,
            key: self.key@,
            value: self.value@,
        }
    }
}

impl Clone for Command {
    fn clone(&self) -> (c: Self)
        ensures
            c@ == self@,
    {
        Command {
            client: self.client.clone(),
            seq: self.seq,
            kind: self.kind,
            key: self.key.clone(),
            value: self.value.clone(),
        }
    }
}

/// The number that stands for a kind of operation.
pub open spec fn kind_code(k: OpKind) -> u64 {
    match k {
        OpKind::Get => 0,
        OpKind::Put => 1,
        OpKind::Append => 2,
    }
}

/// The kind of operation that a number stands for.
pub open spec fn kind_of_code(c: u64) -> Option<OpKind> {
    if c == 0 {
        Some(OpKind::Get)
    } else if c == 1 {
        Some(OpKind::Put)
    } else if c == 2 {
        Some(OpKind::Append)
    } else {
        None
    }
}

/// The fields of a command: kind, number, client, key, value.
pub open spec fn command_fields(c: CommandView) -> Seq<Seq<u8>> {
    seq![
        u64_bytes(kind_code(c.kind)),
        u64_bytes(c.seq),
        encode_utf8(c.client),
        encode_utf8(c.key),
        encode_utf8(c.value),
    ]
}

/// The bytes of a command.
pub open spec fn command_bytes(c: CommandView) -> Seq<u8> {
    frame_bytes(command_fields(c))
}

/// A command whose strings a frame can hold.
pub open spec fn encodable_command(c: CommandView) -> bool {
    &&& encode_utf8(c.client).len() <= u64::MAX
    &&& encode_utf8(c.key).len() <= u64::MAX
    &&& encode_utf8(c.value).len() <= u64::MAX
}

/// The command that five fields hold, if they hold one.
pub open spec fn command_of_fields(fs: Seq<Seq<u8>>) -> Option<CommandView> {
    if fs.len() == 5 && fs[0].len() == 8 && fs[1].len() == 8 && kind_of_code(
        spec_u64_from_le_bytes(fs[0]),
    ) is Some && valid_utf8(fs[2]) && valid_utf8(fs[3]) && valid_utf8(fs[4]) {
        Some(
            CommandView {
                client: decode_utf8(fs[2]),
                seq: spec_u64_from_le_bytes(fs[1]),
                kind: kind_of_code(spec_u64_from_le_bytes(fs[0]))->0,
                key: decode_utf8(fs[3]),
                value: decode_utf8(fs[4]),
            },
        )
    } else {
        None
    }
}

/// The command that bytes hold, if they hold one.
pub open spec fn parse_command(b: Seq<u8>) -> Option<CommandView> {
    match parse_frame(b) {
        None => None,
        Some(fs) => command_of_fields(fs),
    }
}

/// A command reads back from its bytes as itself.
pub proof fn law_command_round_trip(c: CommandView)
    requires
        encodable_command(c),
    ensures
        parse_command(command_bytes(c)) == Some(c),
{
    lemma_field_round_trips();
    let fs = command_fields(c);
    assert(framable(fs)) by {
        assert forall|i: int| 0 <= i < fs.len() implies #[trigger] fs[i].len() <= u64::MAX by {
            if i < 2 {
                assert(fs[i].len() == 8);
            }
        }
    }
    lemma_parse_frame(fs);
    assert(fs[0] == u64_bytes(kind_code(c.kind)));
    assert(fs[1] == u64_bytes(c.seq));
}

/// Encodes a command into its bytes.
pub fn encode_command(c: &Command) -> (b: Vec<u8>)
    ensures
        b@ == command_bytes(c@),
        encodable_command(c@),
{
    let code: u64 = match c.kind {
        OpKind::Get => 0,
        OpKind::Put => 1,
        OpKind::Append => 2,
    };
    let mut fields: Vec<Vec<u8>> = Vec::new();
    fields.push(u64_field(code));
    fields.push(u64_field(c.seq));
    fields.push(string_bytes(&c.client));
    fields.push(string_bytes(&c.key));
    fields.push(string_bytes(&c.value));
    assert(fields_view(fields@) =~= command_fields(c@));
    proof {
        lemma_field_round_trips();
        let fs = command_fields(c@);
        assert forall|i: int| 0 <= i < fs.len() implies #[trigger] fs[i].len() <= u64::MAX by {
            assert(fields_view(fields@)[i] == fields@[i]@);
        }
    }
    encode_frame(&fields)
}

/// Decodes a command; `None` exactly when the bytes hold none.
pub fn decode_command(b: &[u8]) -> (r: Option<Command>)
    ensures
        match r {
            Some(c) => parse_command(b@) == Some(c@),
            None => parse_command(b@) is None,
        },
{
    let fields = match decode_frame(b) {
        None => {
            return None;
        },
        Some(fs) => fs,
    };
    let ghost fs = fields_view(fields@);
    if fields.len() != 5 {
        return None;
    }
    proof {
        assert forall|i: int| 0 <= i < 5 implies fs[i] == #[trigger] fields@[i]@ by {}
    }
    let code = match u64_of_field(&fields[0]) {
        None => {
            return None;
        },
        Some(x) => x,
    };
    let seq = match u64_of_field(&fields[1]) {
        None => {
            return None;
        },
        Some(x) => x,
    };
    let kind = if code == 0 {
        OpKind::Get
    } else if code == 1 {
        OpKind::Put
    } else if code == 2 {
        OpKind::Append
    } else {
        return None;
    };
    let client = match string_of_bytes(fields[2].clone()) {
        None => {
            return None;
        },
        Some(s) => s,
    };
    let key = match string_of_bytes(fields[3].clone()) {
        None => {
            return None;
        },
        Some(s) => s,
    };
    let value = match string_of_bytes(fields[4].clone()) {
        None => {
            return None;
        },
        Some(s) => s,
    };
    Some(Command { client, seq, kind, key, value })
}

} // verus!
