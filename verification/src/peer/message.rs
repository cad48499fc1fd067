//! The messages of the peer wire protocol, and their bytes on the wire.
use vstd::arithmetic::div_mod::lemma_fundamental_div_mod;
use crate::base::download::{push_text, text_string};
use crate::bencode::grammar::decimal;
use crate::bencode::hash::{hex_bytes, lemma_ascii_valid, to_hex};
use crate::bencode::text::push_natural;
use vstd::prelude::*;
use vstd::utf8::encode_utf8;

verus! {

/// A message between two peers.
#[derive(Debug, Clone)]
pub enum Message {
    KeepAlive,
    Choke,
    Unchoke,
    Interested,
    NotInterested,
    Have(u32),
    Bitfield(Vec<u8>),
    Request(u32, u32, u32),
    Piece(u32, u32, Vec<u8>),
    Cancel(u32, u32, u32),
    Port,
}

/// The model of a message.
pub enum MessageModel {
    KeepAlive,
    Choke,
    Unchoke,
    Interested,
    NotInterested,
    Have(u32),
    Bitfield(Seq<u8>),
    Request(u32, u32, u32),
    Piece(u32, u32, Seq<u8>),
    Cancel(u32, u32, u32),
    Port,
}

impl DeepView for Message {
    type V = MessageModel;

    open spec fn deep_view(&self) -> MessageModel {
        match self {
            Message::KeepAlive => MessageModel::KeepAlive,
            Message::Choke => MessageModel::Choke,
            Message::Unchoke => MessageModel::Unchoke,
            Message::Interested => MessageModel::Interested,
            Message::NotInterested => MessageModel::NotInterested,
            Message::Have(i) => MessageModel::Have(*i),
            Message::Bitfield(b) => MessageModel::Bitfield(b@),
            Message::Request(i, o, l) => MessageModel::Request(*i, *o, *l),
            Message::Piece(i, o, d) => MessageModel::Piece(*i, *o, d@),
            Message::Cancel(i, o, l) => MessageModel::Cancel(*i, *o, *l),
            Message::Port => MessageModel::Port,
        }
    }
}

/// The big-endian value of the first four bytes.
pub open spec fn be_u32(b: Seq<u8>) -> int {
    b[0] * 16777216 + b[1] * 65536 + b[2] * 256 + b[3]
}

/// The four big-endian bytes of `x`.
pub open spec fn u32_be(x: u32) -> Seq<u8> {
    let r1 = x % 16777216;
    let r2 = r1 % 65536;
    seq![(x / 16777216) as u8, (r1 / 65536) as u8, (r2 / 256) as u8, (r2 % 256) as u8]
}

/// Reads a big-endian `u32` from the first four bytes.
pub fn bytes_to_u32(bytes: &[u8]) -> (r: u32)
    requires
        bytes@.len() >= 4,
    ensures
        r == be_u32(bytes@),
{
    bytes[0] as u32 * 16777216 + bytes[1] as u32 * 65536 + bytes[2] as u32 * 256 + bytes[3] as u32
}

/// Writes `integer` as four big-endian bytes.
pub fn u32_to_bytes(integer: u32) -> (r: Vec<u8>)
    ensures
        r@ == u32_be(integer),
{
    let first = integer / 16777216;
    let rest = integer % 16777216;
    let second = rest / 65536;
    let rest = rest % 65536;
    let third = rest / 256;
    let fourth = rest % 256;
    let v = vec![first as u8, second as u8, third as u8, fourth as u8];
    assert(v@ =~= u32_be(integer));
    v
}

/// Reading four big-endian bytes gives back the integer written.
pub proof fn lemma_u32_round_trip(x: u32)
    ensures
        be_u32(u32_be(x)) == x,
{
    let x = x as int;
    let r1 = x % 16777216;
    let r2 = r1 % 65536;
    lemma_fundamental_div_mod(x, 16777216);
    lemma_fundamental_div_mod(r1, 65536);
    lemma_fundamental_div_mod(r2, 256);
}

/// Whether a message with this id and body can be read: the id is known
/// and the body holds the fields the id calls for.
pub open spec fn readable(id: u8, body: Seq<u8>) -> bool {
    &&& id <= 9
    &&& id == 4 ==> body.len() >= 4
    &&& (id == 6 || id == 8) ==> body.len() >= 12
    &&& id == 7 ==> body.len() >= 8
}

/// Tells whether a message with this id and body can be read.
pub fn can_read(id: u8, body: &[u8]) -> (r: bool)
    ensures
        r == readable(id, body@),
{
    let n = body.len();
    id <= 9 && (id != 4 || n >= 4) && ((id != 6 && id != 8) || n >= 12) && (id != 7 || n >= 8)
}

/// The message with this id and body.
pub open spec fn message_of(id: u8, body: Seq<u8>) -> MessageModel {
    if id == 0 {
        MessageModel::Choke
    } else if id == 1 {
        MessageModel::Unchoke
    } else if id == 2 {
        MessageModel::Interested
    } else if id == 3 {
        MessageModel::NotInterested
    } else if id == 4 {
        MessageModel::Have(be_u32(body) as u32)
    } else if id == 5 {
        MessageModel::Bitfield(body)
    } else if id == 6 {
        MessageModel::Request(
            be_u32(body) as u32,
            be_u32(body.skip(4)) as u32,
            be_u32(body.skip(8)) as u32,
        )
    } else if id == 7 {
        MessageModel::Piece(be_u32(body) as u32, be_u32(body.skip(4)) as u32, body.skip(8))
    } else if id == 8 {
        MessageModel::Cancel(
            be_u32(body) as u32,
            be_u32(body.skip(4)) as u32,
            be_u32(body.skip(8)) as u32,
        )
    } else {
        MessageModel::Port
    }
}

/// The payload of a message: its id, then its fields.  A piece is written
/// with the id of a request.
pub open spec fn payload(m: MessageModel) -> Seq<u8> {
    match m {
        MessageModel::KeepAlive => seq![],
        MessageModel::Choke => seq![0u8],
        MessageModel::Unchoke => seq![1u8],
        MessageModel::Interested => seq![2u8],
        MessageModel::NotInterested => seq![3u8],
        MessageModel::Have(i) => seq![4u8] + u32_be(i),
        MessageModel::Bitfield(b) => seq![5u8] + b,
        MessageModel::Request(i, o, l) => seq![6u8] + u32_be(i) + u32_be(o) + u32_be(l),
        MessageModel::Piece(i, o, d) => seq![6u8] + u32_be(i) + u32_be(o) + d,
        MessageModel::Cancel(i, o, l) => seq![8u8] + u32_be(i) + u32_be(o) + u32_be(l),
        MessageModel::Port => seq![9u8],
    }
}

/// The bytes of a message on the wire: the payload's length, as four
/// big-endian bytes of its low 32 bits, then the payload.
pub open spec fn wire_bytes(m: MessageModel) -> Seq<u8> {
    u32_be(payload(m).len() as u32) + payload(m)
}

/// Appends bytes to a buffer.
fn extend(out: &mut Vec<u8>, b: Vec<u8>)
    ensures
        final(out)@ == old(out)@ + b@,
{
    let mut i: usize = 0;
    let ghost start = out@;
    while i < b.len()
        invariant
            i <= b@.len(),
            out@ == start + b@.take(i as int),
        decreases b@.len() - i,
    {
        out.push(b[i]);
        assert(out@ =~= start + b@.take(i + 1));
        i = i + 1;
    }
    assert(b@.take(b@.len() as int) =~= b@);
}

impl Message {
    /// Reads a message from its id and body.
    pub fn new(id: &u8, body: &[u8]) -> (r: Message)
        requires
            readable(*id, body@),
        ensures
            r.deep_view() == message_of(*id, body@),
    {
        match *id {
            0 => Message::Choke,
            1 => Message::Unchoke,
            2 => Message::Interested,
            3 => Message::NotInterested,
            4 => Message::Have(bytes_to_u32(body)),
            5 => Message::Bitfield(owned(body)),
            6 => {
                let index = bytes_to_u32(slice_from(body, 0));
                let offset = bytes_to_u32(slice_from(body, 4));
                let length = bytes_to_u32(slice_from(body, 8));
                Message::Request(index, offset, length)
            },
            7 => {
                let index = bytes_to_u32(slice_from(body, 0));
                let offset = bytes_to_u32(slice_from(body, 4));
                let data = owned(slice_from(body, 8));
                Message::Piece(index, offset, data)
            },
            8 => {
                let index = bytes_to_u32(slice_from(body, 0));
                let offset = bytes_to_u32(slice_from(body, 4));
                let length = bytes_to_u32(slice_from(body, 8));
                Message::Cancel(index, offset, length)
            },
            _ => Message::Port,
        }
    }

    /// The bytes of this message on the wire.
    pub fn serialize(self) -> (r: Vec<u8>)
        ensures
            r@ == wire_bytes(self.deep_view()),
    {
        let ghost m = self.deep_view();
        let mut out: Vec<u8> = Vec::new();
        match self {
            Message::KeepAlive => {},
            Message::Choke => out.push(0),
            Message::Unchoke => out.push(1),
            Message::Interested => out.push(2),
            Message::NotInterested => out.push(3),
            Message::Have(index) => {
                out.push(4);
                extend(&mut out, u32_to_bytes(index));
            },
            Message::Bitfield(bytes) => {
                out.push(5);
                extend(&mut out, bytes);
            },
            Message::Request(index, offset, length) => {
                out.push(6);
                extend(&mut out, u32_to_bytes(index));
                extend(&mut out, u32_to_bytes(offset));
                extend(&mut out, u32_to_bytes(length));
            },
            Message::Piece(index, offset, data) => {
                out.push(6);
                extend(&mut out, u32_to_bytes(index));
                extend(&mut out, u32_to_bytes(offset));
                extend(&mut out, data);
            },
            Message::Cancel(index, offset, length) => {
                out.push(8);
                extend(&mut out, u32_to_bytes(index));
                extend(&mut out, u32_to_bytes(offset));
                extend(&mut out, u32_to_bytes(length));
            },
            Message::Port => out.push(9),
        }
        assert(out@ =~= payload(m));
        let mut size = u32_to_bytes(out.len() as u32);
        extend(&mut size, out);
        size
    }
}

/// The message that a payload read off the wire holds: a keep-alive when
/// it is empty, otherwise the message of its first byte as id and the rest
/// as body; `None` when the id is unknown or the body too short for it.
pub open spec fn payload_message(p: Seq<u8>) -> Option<MessageModel> {
    if p.len() == 0 {
        Some(MessageModel::KeepAlive)
    } else if readable(p[0], p.drop_first()) {
        Some(message_of(p[0], p.drop_first()))
    } else {
        None
    }
}

/// Reads the message in a payload read off the wire, or `None` when the
/// payload holds none.
pub fn from_payload(payload: &[u8]) -> (r: Option<Message>)
    ensures
        match r {
            None => payload_message(payload@) is None,
            Some(m) => payload_message(payload@) == Some(m.deep_view()),
        },
{
    if payload.len() == 0 {
        return Some(Message::KeepAlive);
    }
    let body = slice_from(payload, 1);
    assert(body@ == payload@.drop_first());
    if can_read(payload[0], body) {
        Some(Message::new(&payload[0], body))
    } else {
        None
    }
}

/// A copy of some bytes.
fn owned(b: &[u8]) -> (r: Vec<u8>)
    ensures
        r@ == b@,
{
    let mut out: Vec<u8> = Vec::new();
    let mut i: usize = 0;
    while i < b.len()
        invariant
            i <= b@.len(),
            out@ == b@.take(i as int),
        decreases b@.len() - i,
    {
        out.push(b[i]);
        assert(out@ =~= b@.take(i + 1));
        i = i + 1;
    }
    assert(b@.take(b@.len() as int) =~= b@);
    out
}

/// The bytes of a slice from `start` on.
fn slice_from(b: &[u8], start: usize) -> (r: &[u8])
    requires
        start <= b@.len(),
    ensures
        r@ == b@.skip(start as int),
{
    vstd::slice::slice_subrange(b, start, b.len())
}

/// A message read back from its payload is the message written, for every
/// message but a keep-alive (which has no payload) and a piece (which is
/// written with the id of a request).
pub proof fn lemma_message_round_trip(m: MessageModel)
    requires
        !(m is KeepAlive),
        !(m is Piece),
    ensures
        payload(m).len() > 0,
        readable(payload(m)[0], payload(m).drop_first()),
        message_of(payload(m)[0], payload(m).drop_first()) == m,
{
    let p = payload(m);
    let body = p.drop_first();
    match m {
        MessageModel::Have(i) => {
            lemma_u32_round_trip(i);
            assert(body =~= u32_be(i));
        },
        MessageModel::Bitfield(b) => {
            assert(body =~= b);
        },
        MessageModel::Request(i, o, l) => {
            lemma_u32_round_trip(i);
            lemma_u32_round_trip(o);
            lemma_u32_round_trip(l);
            assert(body.skip(4).take(4) =~= u32_be(o));
            assert(body.skip(8) =~= u32_be(l));
            assert(be_u32(body) == be_u32(u32_be(i)));
            assert(be_u32(body.skip(4)) == be_u32(u32_be(o)));
        },
        MessageModel::Cancel(i, o, l) => {
            lemma_u32_round_trip(i);
            lemma_u32_round_trip(o);
            lemma_u32_round_trip(l);
            assert(body.skip(8) =~= u32_be(l));
            assert(be_u32(body) == be_u32(u32_be(i)));
            assert(be_u32(body.skip(4)) == be_u32(u32_be(o)));
        },
        _ => {},
    }
}

/// Reading back the payload of a message gives the message, for every
/// message but a piece (which is written with the id of a request).
pub proof fn lemma_payload_round_trip(m: MessageModel)
    requires
        !(m is Piece),
    ensures
        payload_message(payload(m)) == Some(m),
{
    if !(m is KeepAlive) {
        lemma_message_round_trip(m);
    }
}

/// The text of a message: its name, then its fields in parentheses; a
/// bitfield in hexadecimal, and a piece by the size of its data.
pub open spec fn message_text(m: MessageModel) -> Seq<u8> {
    match m {
        MessageModel::KeepAlive => encode_utf8("KeepAlive"@),
        MessageModel::Choke => encode_utf8("Choke"@),
        MessageModel::Unchoke => encode_utf8("Unchoke"@),
        MessageModel::Interested => encode_utf8("Interested"@),
        MessageModel::NotInterested => encode_utf8("NotInterested"@),
        MessageModel::Have(i) => encode_utf8("Have("@) + decimal(i as nat) + encode_utf8(")"@),
        MessageModel::Bitfield(b) => encode_utf8("Bitfield(\""@) + hex_bytes(b) + encode_utf8(
            "\")"@,
        ),
        MessageModel::Request(i, o, l) => encode_utf8("Request("@) + decimal(i as nat)
            + encode_utf8(", "@) + decimal(o as nat) + encode_utf8(", "@) + decimal(l as nat)
            + encode_utf8(")"@),
        MessageModel::Piece(i, o, d) => encode_utf8("Piece("@) + decimal(i as nat) + encode_utf8(
            ", "@,
        ) + decimal(o as nat) + encode_utf8(", size="@) + decimal(d.len()) + encode_utf8(")"@),
        MessageModel::Cancel(i, o, l) => encode_utf8("Cancel("@) + decimal(i as nat)
            + encode_utf8(", "@) + decimal(o as nat) + encode_utf8(", "@) + decimal(l as nat)
            + encode_utf8(")"@),
        MessageModel::Port => encode_utf8("Port"@),
    }
}

impl Message {
    /// The text of this message, as `message_text` gives it.
    pub fn to_text(&self) -> (r: String)
        ensures
            encode_utf8(r@) == message_text(self.deep_view()),
    {
        let mut out: Vec<u8> = Vec::new();
        proof {
            lemma_ascii_valid(out@);
        }
        match self {
            Message::KeepAlive => push_text(&mut out, "KeepAlive"),
            Message::Choke => push_text(&mut out, "Choke"),
            Message::Unchoke => push_text(&mut out, "Unchoke"),
            Message::Interested => push_text(&mut out, "Interested"),
            Message::NotInterested => push_text(&mut out, "NotInterested"),
            Message::Have(i) => {
                push_text(&mut out, "Have(");
                push_natural(&mut out, *i as u128);
                push_text(&mut out, ")");
            },
            Message::Bitfield(bytes) => {
                push_text(&mut out, "Bitfield(\"");
                let hex = to_hex(bytes.as_slice());
                push_text(&mut out, hex.as_str());
                push_text(&mut out, "\")");
            },
            Message::Request(i, o, l) => {
                push_text(&mut out, "Request(");
                push_natural(&mut out, *i as u128);
                push_text(&mut out, ", ");
                push_natural(&mut out, *o as u128);
                push_text(&mut out, ", ");
                push_natural(&mut out, *l as u128);
                push_text(&mut out, ")");
            },
            Message::Piece(i, o, d) => {
                push_text(&mut out, "Piece(");
                push_natural(&mut out, *i as u128);
                push_text(&mut out, ", ");
                push_natural(&mut out, *o as u128);
                push_text(&mut out, ", size=");
                push_natural(&mut out, d.len() as u128);
                push_text(&mut out, ")");
            },
            Message::Cancel(i, o, l) => {
                push_text(&mut out, "Cancel(");
                push_natural(&mut out, *i as u128);
                push_text(&mut out, ", ");
                push_natural(&mut out, *o as u128);
                push_text(&mut out, ", ");
                push_natural(&mut out, *l as u128);
                push_text(&mut out, ")");
            },
            Message::Port => push_text(&mut out, "Port"),
        }
        assert(out@ =~= message_text(self.deep_view()));
        text_string(out)
    }
}

/// The message ids of the peer wire protocol: on the wire, after the four
/// length bytes, a choke starts with 0, an unchoke with 1, interested
/// with 2, not interested with 3, a have with 4, a bitfield with 5, a
/// request with 6, a cancel with 8 and a port with 9 (a piece is written
/// with 6, the id of a request); a keep-alive is the length 0 alone.  The
/// length bytes give the length of what follows, when it is shorter than
/// 2^32 bytes.  Read back, id 0 is a
/// choke, 1 an unchoke, 2 interested, 3 not interested, 4 a have, 5 a
/// bitfield, 6 a request, 7 a piece and 8 a cancel.
pub proof fn lemma_wire_ids(m: MessageModel, body: Seq<u8>)
    ensures
        wire_bytes(m).len() >= 4,
        wire_bytes(m).len() - 4 < 0x1_0000_0000 ==> be_u32(wire_bytes(m)) == wire_bytes(m).len() - 4,
        m is KeepAlive <==> wire_bytes(m).len() == 4,
        m is Choke ==> wire_bytes(m).skip(4) == seq![0u8],
        m is Unchoke ==> wire_bytes(m).skip(4) == seq![1u8],
        m is Interested ==> wire_bytes(m).skip(4) == seq![2u8],
        m is NotInterested ==> wire_bytes(m).skip(4) == seq![3u8],
        m is Port ==> wire_bytes(m).skip(4) == seq![9u8],
        m is Have ==> wire_bytes(m).len() == 9 && wire_bytes(m)[4] == 4,
        m is Bitfield ==> wire_bytes(m)[4] == 5,
        m is Request ==> wire_bytes(m).len() == 17 && wire_bytes(m)[4] == 6,
        m is Piece ==> wire_bytes(m)[4] == 6,
        m is Cancel ==> wire_bytes(m).len() == 17 && wire_bytes(m)[4] == 8,
        message_of(0, body) is Choke,
        message_of(1, body) is Unchoke,
        message_of(2, body) is Interested,
        message_of(3, body) is NotInterested,
        message_of(4, body) is Have,
        message_of(5, body) is Bitfield,
        message_of(6, body) is Request,
        message_of(7, body) is Piece,
        message_of(8, body) is Cancel,
{
    let p = payload(m);
    let w = wire_bytes(m);
    assert(w.skip(4) =~= p);
    lemma_u32_round_trip(p.len() as u32);
    assert(w.take(4) =~= u32_be(p.len() as u32));
    assert(be_u32(w) == be_u32(u32_be(p.len() as u32)));
    match m {
        MessageModel::Have(i) => {
            assert(p =~= seq![4u8] + u32_be(i));
        },
        MessageModel::Request(i, o, l) => {
            assert(p.len() == 13);
        },
        MessageModel::Cancel(i, o, l) => {
            assert(p.len() == 13);
        },
        _ => {},
    }
}

} // verus!
