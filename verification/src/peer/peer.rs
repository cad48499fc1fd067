//! A peer: an IPv4 address in dotted form and a port.
use crate::bencode::decode::{string_from_utf8, DecodeError};
use crate::bencode::encode::push_decimal;
use crate::bencode::grammar::{decimal, is_digit, BValue, DecodeFailure};
use crate::bencode::hash::lemma_ascii_valid;
use crate::bencode::roundtrip::lemma_decimal;
use crate::bencode::value::{converted, field_value, FromValue, Value};
use vstd::prelude::*;
use vstd::utf8::{decode_utf8_encode_utf8, encode_utf8};

verus! {

/// A peer to connect to.
#[derive(Debug, PartialEq, Eq, Hash, Clone)]
pub struct Peer {
    pub ip: String,
    pub port: u16,
}

/// The model of a peer.
pub struct PeerModel {
    pub ip: Seq<char>,
    pub port: u16,
}

impl DeepView for Peer {
    type V = PeerModel;

    open spec fn deep_view(&self) -> PeerModel {
        PeerModel { ip: self.ip@, port: self.port }
    }
}

/// The dotted text of the IPv4 address in the first four bytes.
pub open spec fn ipv4_text(b: Seq<u8>) -> Seq<u8> {
    decimal(b[0] as nat) + seq![46u8] + decimal(b[1] as nat) + seq![46u8] + decimal(b[2] as nat)
        + seq![46u8] + decimal(b[3] as nat)
}

/// The port in the two bytes after the address, high byte first.
pub open spec fn port_of(b: Seq<u8>) -> int {
    b[4] * 256 + b[5]
}

impl Peer {
    /// Reads a peer from its six compact bytes: the address, then the port.
    pub fn from_bytes(v: &[u8]) -> (r: Peer)
        requires
            v@.len() >= 6,
        ensures
            encode_utf8(r.ip@) == ipv4_text(v@),
            r.port == port_of(v@),
    {
        let mut text: Vec<u8> = Vec::new();
        push_decimal(&mut text, v[0] as u128);
        text.push(46);
        push_decimal(&mut text, v[1] as u128);
        text.push(46);
        push_decimal(&mut text, v[2] as u128);
        text.push(46);
        push_decimal(&mut text, v[3] as u128);
        assert(text@ =~= ipv4_text(v@));
        proof {
            lemma_decimal(v@[0] as nat);
            lemma_decimal(v@[1] as nat);
            lemma_decimal(v@[2] as nat);
            lemma_decimal(v@[3] as nat);
            let d0 = decimal(v@[0] as nat);
            let d1 = decimal(v@[1] as nat);
            let d2 = decimal(v@[2] as nat);
            let d3 = decimal(v@[3] as nat);
            assert forall|i: int| 0 <= i < text@.len() implies #[trigger] text@[i] < 128 by {
                let a = d0.len() as int;
                let b = a + 1 + d1.len();
                let c = b + 1 + d2.len();
                if i < a {
                    assert(is_digit(d0[i]));
                } else if i == a || i == b || i == c {
                } else if i < b {
                    assert(is_digit(d1[i - a - 1]));
                } else if i < c {
                    assert(is_digit(d2[i - b - 1]));
                } else {
                    assert(is_digit(d3[i - c - 1]));
                }
            }
            lemma_ascii_valid(text@);
            decode_utf8_encode_utf8(text@);
        }
        let ip = match string_from_utf8(text) {
            Ok(s) => s,
            Err(_) => {
                assert(false);
                String::new()
            },
        };
        let port = (v[4] as u16) * 256 + (v[5] as u16);
        Peer { ip, port }
    }
}

impl FromValue for Peer {
    open spec fn spec_from_value(v: BValue) -> Result<PeerModel, DecodeFailure> {
        match field_value::<String>(v, "ip"@) {
            Err(e) => Err(e),
            Ok(ip) => match field_value::<u16>(v, "port"@) {
                Err(e) => Err(e),
                Ok(port) => Ok(PeerModel { ip, port }),
            },
        }
    }

    fn from_value(value: &Value) -> (r: Result<Peer, DecodeError>) {
        let ip: String = value.get_field("ip")?;
        let port: u16 = value.get_field("port")?;
        Ok(Peer { ip, port })
    }
}

} // verus!
