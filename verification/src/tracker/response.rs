//! What a tracker answers: how often to ask again, how many peers have the
//! whole torrent and how many are still fetching it, and some peers.
use crate::bencode::decode::{DecodeError, DecodeTo, Decoder};
use crate::bencode::grammar::{dict_lookup, parse_value, BValue, DecodeFailure};
use crate::bencode::value::{
    converted, field_value, lookup_value, option_field_value, FromValue, Value,
};
use crate::peer::peer::{ipv4_text, port_of, Peer, PeerModel};
use vstd::prelude::*;
use vstd::utf8::{decode_utf8, encode_utf8_decode_utf8};

verus! {

/// A tracker's answer.
#[derive(PartialEq, Debug)]
pub struct TrackerResponse {
    pub interval: u32,
    pub min_interval: Option<u32>,
    pub complete: u32,
    pub incomplete: u32,
    pub peers: Vec<Peer>,
}

/// The model of a tracker's answer.
pub struct ResponseModel {
    pub interval: u32,
    pub min_interval: Option<u32>,
    pub complete: u32,
    pub incomplete: u32,
    pub peers: Seq<PeerModel>,
}

impl DeepView for TrackerResponse {
    type V = ResponseModel;

    open spec fn deep_view(&self) -> ResponseModel {
        ResponseModel {
            interval: self.interval,
            min_interval: self.min_interval,
            complete: self.complete,
            incomplete: self.incomplete,
            peers: self.peers.deep_view(),
        }
    }
}

/// The peer in six compact bytes.
pub open spec fn compact_peer(b: Seq<u8>) -> PeerModel {
    PeerModel { ip: decode_utf8(ipv4_text(b)), port: port_of(b) as u16 }
}

/// The peers in compact form: six bytes each.
pub open spec fn compact_peers(b: Seq<u8>) -> Seq<PeerModel> {
    Seq::new(b.len() / 6, |i: int| compact_peer(b.subrange(6 * i, 6 * i + 6)))
}

/// Reading the `peers` field: a list of dictionaries, or compact bytes
/// whose length is a multiple of six.
pub open spec fn peers_of(v: BValue) -> Result<Seq<PeerModel>, DecodeFailure> {
    match v {
        BValue::List(_) => <Vec<Peer> as FromValue>::spec_from_value(v),
        BValue::Bytes(b) => if b.len() % 6 == 0 {
            Ok(compact_peers(b))
        } else {
            Err(DecodeFailure::ExtraneousData)
        },
        _ => Err(DecodeFailure::ExtraneousData),
    }
}

/// Reads peers in compact form.
fn peers_from_bytes(b: &Vec<u8>) -> (r: Vec<Peer>)
    requires
        b@.len() % 6 == 0,
    ensures
        r.deep_view() == compact_peers(b@),
{
    let mut peers: Vec<Peer> = Vec::new();
    let mut i: usize = 0;
    let n = b.len() / 6;
    while i < n
        invariant
            n == b@.len() / 6,
            b@.len() % 6 == 0,
            i <= n,
            peers@.len() == i,
            forall|k: int| 0 <= k < i ==> #[trigger] peers@[k].deep_view() == compact_peer(
                b@.subrange(6 * k, 6 * k + 6),
            ),
        decreases n - i,
    {
        assert(6 * i + 6 <= b.len()) by (nonlinear_arith)
            requires
                i < n,
                n == b@.len() / 6,
                b@.len() == b.len(),
        ;
        let chunk = vstd::slice::slice_subrange(b.as_slice(), 6 * i, 6 * i + 6);
        let peer = Peer::from_bytes(chunk);
        proof {
            encode_utf8_decode_utf8(peer.ip@);
        }
        peers.push(peer);
        i = i + 1;
    }
    assert(peers.deep_view() =~= compact_peers(b@)) by {
        assert forall|k: int| 0 <= k < n implies peers.deep_view()[k] == compact_peers(b@)[k] by {
            assert(peers.deep_view()[k] == peers@[k].deep_view());
        }
    }
    peers
}

impl FromValue for TrackerResponse {
    /// Compact peers whose length is not a multiple of six are refused.
    open spec fn spec_from_value(v: BValue) -> Result<ResponseModel, DecodeFailure> {
        match lookup_value(v, "peers"@) {
            Err(e) => Err(e),
            Ok(pv) => match peers_of(pv) {
                Err(e) => Err(e),
                Ok(peers) => match field_value::<u32>(v, "interval"@) {
                    Err(e) => Err(e),
                    Ok(interval) => match option_field_value::<u32>(v, "min interval"@) {
                        Err(e) => Err(e),
                        Ok(min_interval) => match field_value::<u32>(v, "complete"@) {
                            Err(e) => Err(e),
                            Ok(complete) => match field_value::<u32>(v, "incomplete"@) {
                                Err(e) => Err(e),
                                Ok(incomplete) => Ok(
                                    ResponseModel {
                                        interval,
                                        min_interval,
                                        complete,
                                        incomplete,
                                        peers,
                                    },
                                ),
                            },
                        },
                    },
                },
            },
        }
    }

    fn from_value(value: &Value) -> (r: Result<TrackerResponse, DecodeError>) {
        let peers_value = value.get_value("peers")?;
        let peers: Vec<Peer> = match peers_value {
            Value::List(_) => <Vec<Peer> as FromValue>::from_value(peers_value)?,
            Value::Bytes(b) => {
                if b.len() % 6 != 0 {
                    return Err(DecodeError::ExtraneousData);
                }
                peers_from_bytes(b)
            },
            _ => {
                return Err(DecodeError::ExtraneousData);
            },
        };
        let interval: u32 = value.get_field("interval")?;
        let min_interval: Option<u32> = value.get_option_field("min interval")?;
        let complete: u32 = value.get_field("complete")?;
        let incomplete: u32 = value.get_field("incomplete")?;
        Ok(TrackerResponse { interval, min_interval, complete, incomplete, peers })
    }
}

/// What parsing a tracker's answer gives.
pub open spec fn parse_response(bytes: Seq<u8>) -> Result<ResponseModel, DecodeFailure> {
    match parse_value(bytes, 0) {
        Err((e, _)) => Err(e),
        Ok((v, _)) => <TrackerResponse as FromValue>::spec_from_value(v),
    }
}

impl TrackerResponse {
    /// Reads a tracker's answer from the body of its reply.
    pub fn parse(bytes: &[u8]) -> (r: Result<TrackerResponse, DecodeError>)
        ensures
            converted(r, parse_response(bytes@)),
    {
        let mut d = Decoder::new(bytes);
        let value: Value = <Value as DecodeTo>::decode(&mut d)?;
        TrackerResponse::from_value(&value)
    }
}

/// A tracker's answer is a dictionary, and what parsing reads from it
/// comes from the keys of the same names: the interval from `interval`,
/// the minimum interval from `min interval` (none when the key is
/// missing), and the counts from `complete` and `incomplete`, each an
/// integer taken as a `u32`.
pub proof fn lemma_response_fields(bytes: Seq<u8>)
    ensures
        parse_response(bytes) matches Ok(r) ==> (parse_value(bytes, 0) matches Ok(
            (BValue::Dict(d), _),
        ) && (dict_lookup(d, "interval"@) matches Some(BValue::Int(i)) && r.interval == (i as i64) as u32)
            && (dict_lookup(d, "complete"@) matches Some(BValue::Int(c)) && r.complete == (
        c as i64) as u32) && (dict_lookup(d, "incomplete"@) matches Some(BValue::Int(n))
            && r.incomplete == (n as i64) as u32) && (r.min_interval matches Some(m) ==> (dict_lookup(
            d,
            "min interval"@,
        ) matches Some(BValue::Int(k)) && m == (k as i64) as u32)) && (r.min_interval is None
            ==> dict_lookup(d, "min interval"@) is None)),
{
}

} // verus!
